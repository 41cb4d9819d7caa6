//! Committing files to an Iceberg table, once per streaming batch and under concurrent commits.

use vstd::prelude::*;

use crate::assoc::AssocMap;
use crate::iceberg::metadata::{
    copy_partition, find, law_first_with_an_id_is_found, partition_model, position, with_id,
    ActionCommit, DataFile, IcebergSchema, Identified, Literal, MetadataLog, MetadataModel,
    Operation, PartitionSpec, Snapshot, SnapshotLog, Summary, TableMetadata, TableRequirement,
    TableUpdate, MAIN_BRANCH,
};
use crate::iceberg::snapshot::{
    in_filter, partition_models, AppendOperation, ManifestMetadata, OverwriteOperation,
    SnapshotPlan, SnapshotProduceOperation, SnapshotProducer, StoreContext, Transaction,
    WritePathMode,
};
use crate::text;
use crate::text::{decimal, lemma_decimal_denotes, parse_unsigned, signed_decimal};

verus! {

/// How often a commit is tried.
pub const MAX_COMMIT_RETRIES: usize = 5;

/// The entry of a snapshot's summary that holds the id of the streaming batch.
pub const STREAM_BATCH_ID_PROP: &'static str = "vajra.streaming.batch-id";

/// The entry of a snapshot's summary that holds the id of the streaming query.
pub const STREAM_APP_ID_PROP: &'static str = "vajra.streaming.app-id";

/// The batch of a streaming query that a commit stands for.
#[derive(Debug)]
pub struct StreamingCommit {
    pub batch_id: u64,
    pub app_id: String,
}

/// Why a commit fails.
#[derive(Debug)]
pub enum CommitError {
    MissingCommitMeta,
    TableExists,
    MetadataMissing { requirement: RequirementKind },
    FieldIdMismatch { expected: i32, found: i32 },
    SchemaIdMismatch { expected: i32, found: i32 },
    ReferenceMismatch { reference: String, wanted: Option<i64>, actual: Option<i64> },
    UnsupportedRequirement { description: String },
    NoCurrentSchema,
    NoCurrentSnapshot,
    UnsupportedOperation,
    Conflict,
}

/// A requirement that needs the table's metadata.
#[derive(Debug, Clone, Copy, PartialEq, Eq, Structural)]
pub enum RequirementKind {
    FieldId,
    Schema,
    Snapshot,
}

/// An optional id as text.
pub open spec fn optional_text(id: Option<i64>) -> Seq<char> {
    match id {
        Some(n) => "Some("@ + signed_decimal(n as int) + ")"@,
        None => "None"@,
    }
}

fn push_optional(out: &mut String, id: Option<i64>)
    ensures
        final(out)@ == old(out)@ + optional_text(id),
{
    match id {
        Some(n) => {
            out.append("Some(");
            text::push_signed_decimal(out, n);
            out.append(")");
            assert(out@ =~= old(out)@ + optional_text(id));
        },
        None => {
            out.append("None");
        },
    }
}

impl CommitError {
    /// The message for the user.
    pub open spec fn text(self) -> Seq<char> {
        match self {
            CommitError::MissingCommitMeta => "missing commit_meta action from writer output"@,
            CommitError::TableExists =>
                "Iceberg table already exists but commit asserted non-existence."@,
            CommitError::MetadataMissing { requirement } => match requirement {
                RequirementKind::FieldId =>
                    "Iceberg table metadata missing while validating field id requirement"@,
                RequirementKind::Schema =>
                    "Iceberg table metadata missing while validating schema requirement"@,
                RequirementKind::Snapshot =>
                    "Iceberg table metadata missing while validating snapshot requirement"@,
            },
            CommitError::FieldIdMismatch { expected, found } =>
                "Iceberg commit failed: expected last assigned field id "@ + signed_decimal(
                expected as int,
            ) + " but found "@ + signed_decimal(found as int)
                + ". Reload table metadata and retry."@,
            CommitError::SchemaIdMismatch { expected, found } =>
                "Iceberg commit failed: expected current schema id "@ + signed_decimal(
                expected as int,
            ) + " but found "@ + signed_decimal(found as int)
                + ". Reload table metadata and retry."@,
            CommitError::ReferenceMismatch { reference, wanted, actual } =>
                "Iceberg commit failed: reference '"@ + reference@ + "' expected snapshot "@
                + optional_text(wanted) + " but found "@ + optional_text(actual),
            CommitError::UnsupportedRequirement { description } => "Table requirement '"@
                + description@ + "' is not supported in local commits"@,
            CommitError::NoCurrentSchema => "No current schema in table metadata"@,
            CommitError::NoCurrentSnapshot => "No current snapshot in table metadata"@,
            CommitError::UnsupportedOperation => "Unsupported Iceberg operation in commit"@,
            CommitError::Conflict =>
                "Iceberg commit failed after 5 retries due to concurrent metadata updates"@,
        }
    }

    /// The message for the user.
    pub fn message(&self) -> (out: String)
        ensures
            out@ == self.text(),
    {
        match self {
            CommitError::MissingCommitMeta => {
                "missing commit_meta action from writer output".to_owned()
            },
            CommitError::TableExists => {
                "Iceberg table already exists but commit asserted non-existence.".to_owned()
            },
            CommitError::MetadataMissing { requirement } => match requirement {
                RequirementKind::FieldId => {
                    "Iceberg table metadata missing while validating field id requirement".to_owned()
                },
                RequirementKind::Schema => {
                    "Iceberg table metadata missing while validating schema requirement".to_owned()
                },
                RequirementKind::Snapshot => {
                    "Iceberg table metadata missing while validating snapshot requirement".to_owned()
                },
            },
            CommitError::FieldIdMismatch { expected, found } => {
                let mut out = "Iceberg commit failed: expected last assigned field id ".to_owned();
                text::push_signed_decimal(&mut out, *expected as i64);
                out.append(" but found ");
                text::push_signed_decimal(&mut out, *found as i64);
                out.append(". Reload table metadata and retry.");
                out
            },
            CommitError::SchemaIdMismatch { expected, found } => {
                let mut out = "Iceberg commit failed: expected current schema id ".to_owned();
                text::push_signed_decimal(&mut out, *expected as i64);
                out.append(" but found ");
                text::push_signed_decimal(&mut out, *found as i64);
                out.append(". Reload table metadata and retry.");
                out
            },
            CommitError::ReferenceMismatch { reference, wanted, actual } => {
                let mut out = "Iceberg commit failed: reference '".to_owned();
                out.append(reference.as_str());
                out.append("' expected snapshot ");
                push_optional(&mut out, *wanted);
                out.append(" but found ");
                push_optional(&mut out, *actual);
                out
            },
            CommitError::UnsupportedRequirement { description } => {
                let mut out = "Table requirement '".to_owned();
                out.append(description.as_str());
                out.append("' is not supported in local commits");
                out
            },
            CommitError::NoCurrentSchema => "No current schema in table metadata".to_owned(),
            CommitError::NoCurrentSnapshot => "No current snapshot in table metadata".to_owned(),
            CommitError::UnsupportedOperation => {
                "Unsupported Iceberg operation in commit".to_owned()
            },
            CommitError::Conflict => {
                "Iceberg commit failed after 5 retries due to concurrent metadata updates".to_owned()
            },
        }
    }
}

/// The text under a key.
pub open spec fn property(props: Map<Seq<char>, String>, key: Seq<char>) -> Option<Seq<char>> {
    if props.contains_key(key) {
        Some(props[key]@)
    } else {
        None
    }
}

/// The last batch of a query that a summary records.
pub open spec fn committed(props: Map<Seq<char>, String>, app_id: Seq<char>) -> Option<u64> {
    if property(props, STREAM_APP_ID_PROP@) == Some(app_id) {
        match property(props, STREAM_BATCH_ID_PROP@) {
            Some(t) => match parse_unsigned(t, u64::MAX as nat) {
                Some(n) => Some(n as u64),
                None => None,
            },
            None => None,
        }
    } else {
        None
    }
}

/// The last batch of a query that a snapshot's summary records.
pub fn committed_batch_id(summary: &Summary, app_id: &str) -> (batch_id: Option<u64>)
    ensures
        batch_id == committed(summary.additional_properties@, app_id@),
{
    match summary.additional_properties.get(STREAM_APP_ID_PROP) {
        Some(app) => {
            if !text::str_eq(app.as_str(), app_id) {
                return None;
            }
        },
        None => {
            return None;
        },
    }
    match summary.additional_properties.get(STREAM_BATCH_ID_PROP) {
        Some(id) => text::parse_u64(id.as_str()),
        None => None,
    }
}

/// What a summary records of a streaming batch.
pub open spec fn records_batch(
    props: Map<Seq<char>, String>,
    batch_id: u64,
    app_id: Seq<char>,
) -> bool {
    &&& props.dom() == set![STREAM_BATCH_ID_PROP@, STREAM_APP_ID_PROP@]
    &&& props[STREAM_BATCH_ID_PROP@]@ == decimal(batch_id as nat)
    &&& props[STREAM_APP_ID_PROP@]@ == app_id
}

/// The entries of the summary of a snapshot that a commit makes.
pub fn snapshot_properties(streaming: Option<&StreamingCommit>) -> (props: AssocMap<String, String>)
    ensures
        match streaming {
            Some(sc) => records_batch(props@, sc.batch_id, sc.app_id@),
            None => props@ == Map::<Seq<char>, String>::empty(),
        },
{
    let mut props: AssocMap<String, String> = AssocMap::new();
    match streaming {
        Some(sc) => {
            proof {
                lemma_distinct_properties();
            }
            props.insert(STREAM_BATCH_ID_PROP.to_owned(), text::u64_to_text(sc.batch_id));
            props.insert(STREAM_APP_ID_PROP.to_owned(), sc.app_id.as_str().to_owned());
            assert(props@.dom() =~= set![STREAM_BATCH_ID_PROP@, STREAM_APP_ID_PROP@]);
        },
        None => {},
    }
    props
}

proof fn lemma_distinct_properties()
    ensures
        STREAM_BATCH_ID_PROP@ != STREAM_APP_ID_PROP@,
{
    reveal_strlit("vajra.streaming.batch-id");
    reveal_strlit("vajra.streaming.app-id");
    assert(STREAM_BATCH_ID_PROP@.len() != STREAM_APP_ID_PROP@.len());
}

/// The larger of two numbers.
pub open spec fn larger(a: i32, b: i32) -> i32 {
    if a >= b {
        a
    } else {
        b
    }
}

/// The items with one put in place of the first with its id, or added.
pub open spec fn with_schema(schemas: Seq<IcebergSchema>, schema: IcebergSchema) -> Seq<
    IcebergSchema,
> {
    let i = position(schemas, schema.schema_id);
    if i >= 0 {
        schemas.update(i, schema)
    } else {
        schemas.push(schema)
    }
}

/// The partition specs with one put in place of the first with its id, or added.
pub open spec fn with_spec(specs: Seq<PartitionSpec>, new_spec: PartitionSpec) -> Seq<
    PartitionSpec,
> {
    let i = position(specs, new_spec.spec_id);
    if i >= 0 {
        specs.update(i, new_spec)
    } else {
        specs.push(new_spec)
    }
}

/// Metadata with a schema made current.
pub open spec fn schema_updated(meta: MetadataModel, schema: IcebergSchema) -> MetadataModel {
    MetadataModel {
        schemas: with_schema(meta.schemas, schema),
        current_schema_id: schema.schema_id,
        last_column_id: larger(meta.last_column_id, schema.highest_field_id),
        format_version: if meta.format_version.number() >= schema.format_version.number() {
            meta.format_version
        } else {
            schema.format_version
        },
        ..meta
    }
}

/// Makes a schema current, in place of one with its id or as a new one.
pub fn apply_schema_update(table_meta: &mut TableMetadata, new_schema: IcebergSchema)
    ensures
        final(table_meta)@ == schema_updated(old(table_meta)@, new_schema),
{
    match find(table_meta.schemas.as_slice(), &new_schema.schema_id) {
        Some(i) => {
            table_meta.schemas[i] = new_schema;
        },
        None => {
            table_meta.schemas.push(new_schema);
        },
    }
    table_meta.current_schema_id = new_schema.schema_id;
    if table_meta.last_column_id < new_schema.highest_field_id {
        table_meta.last_column_id = new_schema.highest_field_id;
    }
    table_meta.format_version = table_meta.format_version.max(new_schema.format_version);
    assert(table_meta@ =~= schema_updated(old(table_meta)@, new_schema));
}

/// Metadata with a partition spec made the default.
pub open spec fn spec_updated(meta: MetadataModel, new_spec: PartitionSpec) -> MetadataModel {
    MetadataModel {
        partition_specs: with_spec(meta.partition_specs, new_spec),
        default_spec_id: new_spec.spec_id,
        last_partition_id: match new_spec.highest_field_id {
            Some(highest) => larger(meta.last_partition_id, highest),
            None => meta.last_partition_id,
        },
        ..meta
    }
}

/// Makes a partition spec the default, in place of one with its id or as a new one.
pub fn apply_partition_spec_update(table_meta: &mut TableMetadata, new_spec: PartitionSpec)
    ensures
        final(table_meta)@ == spec_updated(old(table_meta)@, new_spec),
{
    match find(table_meta.partition_specs.as_slice(), &new_spec.spec_id) {
        Some(i) => {
            table_meta.partition_specs[i] = new_spec;
        },
        None => {
            table_meta.partition_specs.push(new_spec);
        },
    }
    table_meta.default_spec_id = new_spec.spec_id;
    match new_spec.highest_field_id {
        Some(highest) => {
            if table_meta.last_partition_id < highest {
                table_meta.last_partition_id = highest;
            }
        },
        None => {},
    }
    assert(table_meta@ =~= spec_updated(old(table_meta)@, new_spec));
}

/// The snapshot that a reference is at.
pub open spec fn reference_at(meta: MetadataModel, reference: Seq<char>) -> Option<i64> {
    if reference == MAIN_BRANCH@ {
        meta.current_snapshot_id
    } else if meta.refs.contains_key(reference) {
        Some(meta.refs[reference].snapshot_id)
    } else {
        None
    }
}

/// Whether a requirement holds of a table, or of its absence.
pub open spec fn holds(meta: Option<MetadataModel>, requirement: TableRequirement) -> bool {
    match requirement {
        TableRequirement::NotExist => meta is None,
        TableRequirement::LastAssignedFieldIdMatch { last_assigned_field_id } => meta matches Some(m)
            && m.last_column_id == last_assigned_field_id,
        TableRequirement::CurrentSchemaIdMatch { current_schema_id } => meta matches Some(m)
            && m.current_schema_id == current_schema_id,
        TableRequirement::RefSnapshotIdMatch { reference, snapshot_id } => meta matches Some(m)
            && reference_at(m, reference@) == snapshot_id,
        TableRequirement::Other { .. } => false,
    }
}

/// Whether an error is the one that a requirement which does not hold gives.
pub open spec fn is_error_of(
    meta: Option<MetadataModel>,
    requirement: TableRequirement,
    error: CommitError,
) -> bool {
    match requirement {
        TableRequirement::NotExist => error is TableExists,
        TableRequirement::LastAssignedFieldIdMatch { last_assigned_field_id } => match meta {
            Some(m) => error == (CommitError::FieldIdMismatch {
                expected: last_assigned_field_id,
                found: m.last_column_id,
            }),
            None => error == (CommitError::MetadataMissing {
                requirement: RequirementKind::FieldId,
            }),
        },
        TableRequirement::CurrentSchemaIdMatch { current_schema_id } => match meta {
            Some(m) => error == (CommitError::SchemaIdMismatch {
                expected: current_schema_id,
                found: m.current_schema_id,
            }),
            None => error == (CommitError::MetadataMissing {
                requirement: RequirementKind::Schema,
            }),
        },
        TableRequirement::RefSnapshotIdMatch { reference, snapshot_id } => match meta {
            Some(m) => error matches CommitError::ReferenceMismatch {
                reference: r,
                wanted,
                actual,
            } && r@ == reference@ && wanted == snapshot_id && actual == reference_at(
                m,
                reference@,
            ),
            None => error == (CommitError::MetadataMissing {
                requirement: RequirementKind::Snapshot,
            }),
        },
        TableRequirement::Other { description } => error matches
            CommitError::UnsupportedRequirement { description: d } && d@ == description@,
    }
}

/// Whether all requirements hold.
pub open spec fn all_hold(meta: Option<MetadataModel>, requirements: Seq<TableRequirement>) -> bool {
    forall|i: int| 0 <= i < requirements.len() ==> holds(meta, #[trigger] requirements[i])
}

/// Whether an error is that of the first requirement which does not hold.
pub open spec fn is_first_error(
    meta: Option<MetadataModel>,
    requirements: Seq<TableRequirement>,
    error: CommitError,
) -> bool {
    exists|i: int|
        0 <= i < requirements.len() && all_hold(meta, requirements.take(i)) && !holds(
            meta,
            #[trigger] requirements[i],
        ) && is_error_of(meta, requirements[i], error)
}

/// The metadata of a table, if there is one.
pub open spec fn optional_model(meta: Option<&TableMetadata>) -> Option<MetadataModel> {
    match meta {
        Some(m) => Some(m@),
        None => None,
    }
}

fn validate_requirement(table_meta: Option<&TableMetadata>, requirement: &TableRequirement) -> (result:
    Result<(), CommitError>)
    ensures
        match result {
            Ok(_) => holds(optional_model(table_meta), *requirement),
            Err(e) => !holds(optional_model(table_meta), *requirement) && is_error_of(
                optional_model(table_meta),
                *requirement,
                e,
            ),
        },
{
    match requirement {
        TableRequirement::NotExist => {
            if table_meta.is_some() {
                return Err(CommitError::TableExists);
            }
        },
        TableRequirement::LastAssignedFieldIdMatch { last_assigned_field_id } => match table_meta {
            Some(meta) => {
                if meta.last_column_id != *last_assigned_field_id {
                    return Err(
                        CommitError::FieldIdMismatch {
                            expected: *last_assigned_field_id,
                            found: meta.last_column_id,
                        },
                    );
                }
            },
            None => {
                return Err(CommitError::MetadataMissing { requirement: RequirementKind::FieldId });
            },
        },
        TableRequirement::CurrentSchemaIdMatch { current_schema_id } => match table_meta {
            Some(meta) => {
                if meta.current_schema_id != *current_schema_id {
                    return Err(
                        CommitError::SchemaIdMismatch {
                            expected: *current_schema_id,
                            found: meta.current_schema_id,
                        },
                    );
                }
            },
            None => {
                return Err(CommitError::MetadataMissing { requirement: RequirementKind::Schema });
            },
        },
        TableRequirement::RefSnapshotIdMatch { reference, snapshot_id } => match table_meta {
            Some(meta) => {
                let found: Option<i64> = if text::str_eq(reference.as_str(), MAIN_BRANCH) {
                    meta.current_snapshot_id
                } else {
                    match meta.refs.get(reference.as_str()) {
                        Some(entry) => Some(entry.snapshot_id),
                        None => None,
                    }
                };
                if found != *snapshot_id {
                    return Err(
                        CommitError::ReferenceMismatch {
                            reference: reference.as_str().to_owned(),
                            wanted: *snapshot_id,
                            actual: found,
                        },
                    );
                }
            },
            None => {
                return Err(CommitError::MetadataMissing { requirement: RequirementKind::Snapshot });
            },
        },
        TableRequirement::Other { description } => {
            return Err(
                CommitError::UnsupportedRequirement {
                    description: description.as_str().to_owned(),
                },
            );
        },
    }
    Ok(())
}

/// Checks what must hold of a table, or of its absence.
pub fn validate_requirements(
    table_meta: Option<&TableMetadata>,
    requirements: &[TableRequirement],
) -> (result: Result<(), CommitError>)
    ensures
        match result {
            Ok(_) => all_hold(optional_model(table_meta), requirements@),
            Err(e) => !all_hold(optional_model(table_meta), requirements@) && is_first_error(
                optional_model(table_meta),
                requirements@,
                e,
            ),
        },
{
    let ghost meta = optional_model(table_meta);
    let mut i: usize = 0;
    while i < requirements.len()
        invariant
            i <= requirements@.len(),
            meta == optional_model(table_meta),
            forall|k: int| 0 <= k < i ==> holds(meta, #[trigger] requirements@[k]),
        decreases requirements@.len() - i,
    {
        match validate_requirement(table_meta, &requirements[i]) {
            Ok(_) => {},
            Err(e) => {
                proof {
                    let before = requirements@.take(i as int);
                    assert forall|k: int| 0 <= k < before.len() implies holds(
                        meta,
                        #[trigger] before[k],
                    ) by {
                        assert(holds(meta, requirements@[k]));
                    }
                    assert(!holds(meta, requirements@[i as int]));
                }
                return Err(e);
            },
        }
        i = i + 1;
    }
    Ok(())
}

/// Whether an operation can make a table's first snapshot, and be committed at all.
pub open spec fn is_write(operation: Operation) -> bool {
    operation == Operation::Append || operation == Operation::Overwrite || operation
        == Operation::OverwritePartitions
}

fn writes(operation: Operation) -> (yes: bool)
    ensures
        yes == is_write(operation),
{
    operation == Operation::Append || operation == Operation::Overwrite || operation
        == Operation::OverwritePartitions
}

/// What the writers ask to be committed.
#[derive(Debug)]
pub struct CommitMeta {
    pub row_count: u64,
    pub requirements: Vec<TableRequirement>,
    pub operation: Operation,
    pub schema: Option<IcebergSchema>,
    pub partition_spec: Option<PartitionSpec>,
}

/// How a commit goes on once the table's metadata is read.
#[derive(Debug, Clone, Copy, PartialEq, Eq, Structural)]
pub enum Prepared {
    /// The table has no snapshot: make its first.
    BootstrapSnapshot,
    /// The batch was committed before.
    AlreadyCommitted,
    /// Commit on top of the current snapshot.
    Commit { schema: IcebergSchema, partition_spec: PartitionSpec },
}

/// The partition spec of a table without one.
pub open spec fn unpartitioned() -> PartitionSpec {
    PartitionSpec { spec_id: 0, highest_field_id: None }
}

/// A new partition spec under the id that it gets in a table: one without an id of its own takes
/// that of the default.
pub open spec fn numbered_spec(new_spec: PartitionSpec, default_spec_id: i32) -> PartitionSpec {
    if new_spec.spec_id == 0 && default_spec_id != 0 {
        PartitionSpec { spec_id: default_spec_id, ..new_spec }
    } else {
        new_spec
    }
}

/// The metadata with the schema and the partition spec of a commit.
pub open spec fn prepared_metadata(meta: MetadataModel, info: CommitMeta) -> MetadataModel {
    let with_schema = match info.schema {
        Some(schema) => schema_updated(meta, schema),
        None => meta,
    };
    match info.partition_spec {
        Some(new_spec) => spec_updated(
            with_schema,
            numbered_spec(new_spec, with_schema.default_spec_id),
        ),
        None => with_schema,
    }
}

/// The partition spec that a commit writes under.
pub open spec fn commit_spec(meta: MetadataModel, info: CommitMeta) -> PartitionSpec {
    let with_schema = match info.schema {
        Some(schema) => schema_updated(meta, schema),
        None => meta,
    };
    match info.partition_spec {
        Some(new_spec) => numbered_spec(new_spec, with_schema.default_spec_id),
        None => match with_schema.default_spec() {
            Some(s) => s,
            None => unpartitioned(),
        },
    }
}

/// Whether the batch of a commit, or a later one, was committed before.
pub open spec fn is_replay(snapshot: Snapshot, streaming: Option<StreamingCommit>) -> bool {
    streaming matches Some(sc) && committed(snapshot.summary.additional_properties@, sc.app_id@)
        matches Some(id) && id >= sc.batch_id
}

/// How a commit goes on once the table's metadata is read and its requirements hold; nothing where
/// it fails.
pub open spec fn preparation(
    meta: MetadataModel,
    info: CommitMeta,
    streaming: Option<StreamingCommit>,
) -> Option<Prepared> {
    let updated = prepared_metadata(meta, info);
    match updated.schema() {
        Some(schema) => match updated.current() {
            Some(snapshot) => if is_replay(snapshot, streaming) {
                Some(Prepared::AlreadyCommitted)
            } else {
                Some(Prepared::Commit { schema, partition_spec: commit_spec(meta, info) })
            },
            None => if is_write(info.operation) {
                Some(Prepared::BootstrapSnapshot)
            } else {
                None
            },
        },
        None => None,
    }
}

/// Brings the schema and the partition spec of a commit into the metadata that was read, and
/// decides how the commit goes on.
pub fn prepare(
    table_meta: &mut TableMetadata,
    info: &CommitMeta,
    streaming: &Option<StreamingCommit>,
) -> (result: Result<Prepared, CommitError>)
    ensures
        match result {
            Ok(prepared) => {
                let updated = prepared_metadata(old(table_meta)@, *info);
                &&& all_hold(Some(old(table_meta)@), info.requirements@)
                &&& preparation(old(table_meta)@, *info, *streaming) == Some(prepared)
                &&& updated.schema() matches Some(schema) && final(table_meta)@ == (MetadataModel {
                    format_version: if updated.format_version.number()
                        >= schema.format_version.number() {
                        updated.format_version
                    } else {
                        schema.format_version
                    },
                    ..updated
                })
            },
            Err(e) => if !all_hold(Some(old(table_meta)@), info.requirements@) {
                is_first_error(Some(old(table_meta)@), info.requirements@, e)
            } else {
                &&& preparation(old(table_meta)@, *info, *streaming) is None
                &&& if prepared_metadata(old(table_meta)@, *info).schema() is None {
                    e is NoCurrentSchema
                } else {
                    e is NoCurrentSnapshot
                }
            },
        },
{
    match validate_requirements(Some(&*table_meta), info.requirements.as_slice()) {
        Ok(_) => {},
        Err(e) => {
            return Err(e);
        },
    }
    match info.schema {
        Some(schema) => {
            apply_schema_update(table_meta, schema);
        },
        None => {},
    }
    let mut partition_spec = match table_meta.default_partition_spec() {
        Some(s) => s,
        None => PartitionSpec { spec_id: 0, highest_field_id: None },
    };
    match info.partition_spec {
        Some(new_spec) => {
            let mut numbered = new_spec;
            if new_spec.spec_id == 0 && table_meta.default_spec_id != 0 {
                numbered.spec_id = table_meta.default_spec_id;
            }
            apply_partition_spec_update(table_meta, numbered);
            partition_spec = numbered;
        },
        None => {},
    }
    let ghost updated = table_meta@;
    let schema = match table_meta.current_schema() {
        Some(schema) => schema,
        None => {
            return Err(CommitError::NoCurrentSchema);
        },
    };
    table_meta.format_version = table_meta.format_version.max(schema.format_version);
    assert(table_meta@.current() == updated.current());
    match table_meta.current_snapshot() {
        Some(snapshot) => {
            match streaming {
                Some(sc) => match committed_batch_id(&snapshot.summary, sc.app_id.as_str()) {
                    Some(id) => {
                        if id >= sc.batch_id {
                            return Ok(Prepared::AlreadyCommitted);
                        }
                    },
                    None => {},
                },
                None => {},
            }
            Ok(Prepared::Commit { schema, partition_spec })
        },
        None => {
            if writes(info.operation) {
                Ok(Prepared::BootstrapSnapshot)
            } else {
                Err(CommitError::NoCurrentSnapshot)
            }
        },
    }
}

/// The partitions of data files, which an overwrite of partitions replaces; each is listed once.
pub fn partition_filter(files: &[DataFile]) -> (filter: Vec<Vec<Option<Literal>>>)
    ensures
        partition_models(filter@).no_duplicates(),
        partition_models(filter@).to_set() == files@.map_values(
            |f: DataFile| partition_model(f.partition@),
        ).to_set(),
{
    let ghost all = files@.map_values(|f: DataFile| partition_model(f.partition@));
    let mut filter: Vec<Vec<Option<Literal>>> = Vec::new();
    let mut i: usize = 0;
    while i < files.len()
        invariant
            i <= files@.len() == all.len(),
            all == files@.map_values(|f: DataFile| partition_model(f.partition@)),
            partition_models(filter@).no_duplicates(),
            forall|k: int|
                0 <= k < i ==> partition_models(filter@).contains(#[trigger] all[k]),
            forall|k: int|
                0 <= k < filter@.len() ==> all.contains(#[trigger] partition_models(filter@)[k]),
        decreases files@.len() - i,
    {
        let ghost before = partition_models(filter@);
        if !in_filter(filter.as_slice(), files[i].partition.as_slice()) {
            filter.push(copy_partition(files[i].partition.as_slice()));
            proof {
                assert(partition_models(filter@) =~= before.push(all[i as int]));
                assert(partition_models(filter@).last() == all[i as int]);
                assert forall|k: int| 0 <= k < i implies partition_models(filter@).contains(
                    #[trigger] all[k],
                ) by {
                    let j = before.index_of(all[k]);
                    assert(partition_models(filter@)[j] == all[k]);
                }
            }
        }
        i = i + 1;
    }
    proof {
        let models = partition_models(filter@);
        assert forall|p: Seq<Option<Seq<u8>>>| models.to_set().contains(p)
            == all.to_set().contains(p) by {
            if models.contains(p) {
                let k = models.index_of(p);
                assert(all.contains(models[k]));
            }
            if all.contains(p) {
                let k = all.index_of(p);
                assert(models.contains(all[k]));
            }
        }
        assert(models.to_set() =~= all.to_set());
    }
    filter
}

/// What the summary of the snapshot of a commit records.
pub open spec fn records_commit(
    props: Map<Seq<char>, String>,
    streaming: Option<StreamingCommit>,
) -> bool {
    match streaming {
        Some(sc) => records_batch(props, sc.batch_id, sc.app_id@),
        None => props == Map::<Seq<char>, String>::empty(),
    }
}

/// Whether a producer makes the snapshot of a commit: it adds the files, its summary records the
/// batch, and it removes parent files by their partitions exactly where partitions are overwritten.
pub open spec fn produces(
    producer: SnapshotProducer,
    operation: Operation,
    files: Seq<DataFile>,
    streaming: Option<StreamingCommit>,
) -> bool {
    &&& !producer.is_bootstrap
    &&& producer.added_data_files@ == files
    &&& records_commit(producer.snapshot_properties@, streaming)
    &&& match producer.partition_filter {
        Some(filter) => {
            &&& operation == Operation::OverwritePartitions
            &&& partition_models(filter@).no_duplicates()
            &&& partition_models(filter@).to_set() == files.map_values(
                |f: DataFile| partition_model(f.partition@),
            ).to_set()
        },
        None => operation != Operation::OverwritePartitions,
    }
}

/// The producer of the snapshot of a commit on top of a transaction's snapshot.
pub fn commit_producer<'a>(
    tx: &'a Transaction,
    operation: Operation,
    files: Vec<DataFile>,
    store_ctx: StoreContext,
    manifest_metadata: ManifestMetadata,
    start_row_id: Option<i64>,
    streaming: &Option<StreamingCommit>,
) -> (result: Result<SnapshotProducer<'a>, CommitError>)
    ensures
        match result {
            Ok(producer) => {
                &&& is_write(operation)
                &&& produces(producer, operation, files@, *streaming)
                &&& producer.tx == tx
                &&& producer.store_ctx == Some(store_ctx)
                &&& producer.manifest_metadata == Some(manifest_metadata)
                &&& producer.write_path_mode == WritePathMode::Absolute
                &&& producer.row_lineage_start_row_id == start_row_id
            },
            Err(e) => !is_write(operation) && e == CommitError::UnsupportedOperation,
        },
{
    if !writes(operation) {
        return Err(CommitError::UnsupportedOperation);
    }
    let filter = if operation == Operation::OverwritePartitions {
        Some(partition_filter(files.as_slice()))
    } else {
        None
    };
    let props = snapshot_properties(streaming.as_ref());
    let producer = SnapshotProducer::new(
        tx,
        files,
        Some(store_ctx),
        Some(manifest_metadata),
    ).with_row_lineage_start_row_id(start_row_id).with_snapshot_properties(props);
    match filter {
        Some(filter) => Ok(producer.with_partition_filter(filter)),
        None => Ok(producer),
    }
}

/// The plan of the snapshot of a commit: all but an append overwrite.
pub fn commit_plan(producer: &SnapshotProducer, operation: Operation) -> (result: Result<
    SnapshotPlan,
    String,
>)
    requires
        producer.is_bootstrap || producer.tx.snapshot.sequence_number < i64::MAX,
    ensures
        producer.is_plan(operation != Operation::Append, result),
{
    proof {
        reveal_strlit("append");
        reveal_strlit("overwrite");
        assert("append"@.len() != "overwrite"@.len());
    }
    if operation == Operation::Append {
        producer.plan(&AppendOperation)
    } else {
        producer.plan(&OverwriteOperation)
    }
}

/// Metadata with one change made.
pub open spec fn with_update(meta: MetadataModel, update: TableUpdate, timestamp_ms: i64) -> MetadataModel {
    match update {
        TableUpdate::AddSnapshot { snapshot } => MetadataModel {
            snapshots: meta.snapshots.push(snapshot),
            current_snapshot_id: Some(snapshot.snapshot_id),
            snapshot_log: meta.snapshot_log.push(
                SnapshotLog { timestamp_ms, snapshot_id: snapshot.snapshot_id },
            ),
            ..meta
        },
        TableUpdate::SetSnapshotRef { ref_name, reference } => MetadataModel {
            refs: meta.refs.insert(ref_name@, reference),
            ..meta
        },
        TableUpdate::Other => meta,
    }
}

/// Metadata with changes made.
pub open spec fn with_updates(
    meta: MetadataModel,
    updates: Seq<TableUpdate>,
    timestamp_ms: i64,
) -> MetadataModel
    decreases updates.len(),
{
    if updates.len() == 0 {
        meta
    } else {
        with_update(
            with_updates(meta, updates.drop_last(), timestamp_ms),
            updates.last(),
            timestamp_ms,
        )
    }
}

/// The last snapshot that changes add.
pub open spec fn newest_snapshot(updates: Seq<TableUpdate>) -> Option<Snapshot>
    decreases updates.len(),
{
    if updates.len() == 0 {
        None
    } else {
        match updates.last() {
            TableUpdate::AddSnapshot { snapshot } => Some(snapshot),
            _ => newest_snapshot(updates.drop_last()),
        }
    }
}

/// The metadata that a commit writes.
pub open spec fn committed_metadata(
    meta: MetadataModel,
    updates: Seq<TableUpdate>,
    timestamp_ms: i64,
    previous_file: Seq<char>,
) -> MetadataModel {
    let updated = with_updates(meta, updates, timestamp_ms);
    MetadataModel {
        last_sequence_number: match newest_snapshot(updates) {
            Some(s) if s.sequence_number > meta.last_sequence_number => s.sequence_number,
            _ => meta.last_sequence_number,
        },
        last_updated_ms: timestamp_ms,
        metadata_log: updated.metadata_log.push((timestamp_ms, previous_file)),
        ..updated
    }
}

/// Makes the changes of a commit, where what must hold for them does. The result is the number of
/// rows that the newest snapshot adds, where it counts them.
pub fn apply_commit(
    table_meta: &mut TableMetadata,
    commit: ActionCommit,
    timestamp_ms: i64,
    previous_file: String,
) -> (result: Result<Option<i64>, CommitError>)
    ensures
        match result {
            Ok(added_rows) => {
                &&& all_hold(Some(old(table_meta)@), commit.requirements@)
                &&& final(table_meta)@ == committed_metadata(
                    old(table_meta)@,
                    commit.updates@,
                    timestamp_ms,
                    previous_file@,
                )
                &&& added_rows == match newest_snapshot(commit.updates@) {
                    Some(s) => s.added_rows,
                    None => None,
                }
            },
            Err(e) => {
                &&& !all_hold(Some(old(table_meta)@), commit.requirements@)
                &&& is_first_error(Some(old(table_meta)@), commit.requirements@, e)
                &&& final(table_meta)@ == old(table_meta)@
            },
        },
{
    match validate_requirements(Some(&*table_meta), commit.requirements.as_slice()) {
        Ok(_) => {},
        Err(e) => {
            return Err(e);
        },
    }
    let ghost updates = commit.updates@;
    let ghost start = table_meta@;
    let mut rest = commit.updates;
    let ghost mut n: int = 0;
    let mut sequence: Option<i64> = None;
    let mut added_rows: Option<i64> = None;
    proof {
        assert(updates.take(0) =~= Seq::<TableUpdate>::empty());
        assert(updates.skip(0) =~= updates);
    }
    while rest.len() > 0
        invariant
            0 <= n <= updates.len(),
            rest@ == updates.skip(n),
            table_meta@ == with_updates(start, updates.take(n), timestamp_ms),
            match newest_snapshot(updates.take(n)) {
                Some(s) => sequence == Some(s.sequence_number) && added_rows == s.added_rows,
                None => sequence is None && added_rows is None,
            },
        decreases rest@.len(),
    {
        let ghost before = table_meta@;
        let update = rest.remove(0);
        proof {
            assert(updates.skip(n)[0] == updates[n]);
            assert(updates.skip(n + 1) =~= updates.skip(n).remove(0));
            assert(updates.take(n + 1).drop_last() =~= updates.take(n));
            assert(updates.take(n + 1).last() == updates[n]);
        }
        match update {
            TableUpdate::AddSnapshot { snapshot } => {
                sequence = Some(snapshot.sequence_number);
                added_rows = snapshot.added_rows;
                let snapshot_id = snapshot.snapshot_id;
                table_meta.snapshots.push(snapshot);
                table_meta.current_snapshot_id = Some(snapshot_id);
                table_meta.snapshot_log.push(SnapshotLog { timestamp_ms, snapshot_id });
            },
            TableUpdate::SetSnapshotRef { ref_name, reference } => {
                table_meta.refs.insert(ref_name, reference);
            },
            TableUpdate::Other => {},
        }
        proof {
            assert(table_meta@ =~= with_update(before, updates[n], timestamp_ms));
            n = n + 1;
        }
    }
    proof {
        assert(updates.take(n) =~= updates);
        lemma_updates_keep(start, updates, timestamp_ms);
    }
    match sequence {
        Some(number) => {
            if number > table_meta.last_sequence_number {
                table_meta.last_sequence_number = number;
            }
        },
        None => {},
    }
    table_meta.last_updated_ms = timestamp_ms;
    let ghost logged = table_meta@.metadata_log;
    table_meta.metadata_log.push(MetadataLog { timestamp_ms, metadata_file: previous_file });
    assert(table_meta@.metadata_log =~= logged.push((timestamp_ms, previous_file@)));
    assert(table_meta@ =~= committed_metadata(start, updates, timestamp_ms, previous_file@));
    Ok(added_rows)
}

proof fn lemma_updates_keep(meta: MetadataModel, updates: Seq<TableUpdate>, timestamp_ms: i64)
    ensures
        with_updates(meta, updates, timestamp_ms).last_sequence_number == meta.last_sequence_number,
        with_updates(meta, updates, timestamp_ms).metadata_log == meta.metadata_log,
    decreases updates.len(),
{
    if updates.len() > 0 {
        lemma_updates_keep(meta, updates.drop_last(), timestamp_ms);
    }
}

/// The version of the metadata that a commit writes, given that of the current file if its name
/// tells.
pub fn next_version(current: Option<u32>) -> (version: u64)
    ensures
        version == match current {
            Some(v) => v as int + 1,
            None => 1,
        },
{
    match current {
        Some(v) => v as u64 + 1,
        None => 1,
    }
}

/// The name of the metadata file of a version below the table.
pub fn metadata_name(version: u64, extension: &str) -> (name: String)
    ensures
        name@ == "metadata/v"@ + decimal(version as nat) + extension@,
{
    let mut name = "metadata/v".to_owned();
    text::push_decimal(&mut name, version);
    name.append(extension);
    name
}

/// Whether some file of a version is not the one that was written.
pub fn has_conflict(files: &[String], written: &str) -> (conflict: bool)
    ensures
        conflict == exists|i: int| 0 <= i < files@.len() && (#[trigger] files@[i])@ != written@,
{
    let mut i: usize = 0;
    while i < files.len()
        invariant
            i <= files@.len(),
            forall|k: int| 0 <= k < i ==> (#[trigger] files@[k])@ == written@,
        decreases files@.len() - i,
    {
        if !text::str_eq(files[i].as_str(), written) {
            return true;
        }
        i = i + 1;
    }
    false
}

/// What a commit waits for.
#[derive(Debug, Clone, Copy, PartialEq, Eq, Structural)]
pub enum CommitPhase {
    LookingUp,
    BootstrappingTable,
    Loading,
    BootstrappingSnapshot,
    Listing,
    Producing,
    Writing,
    Checking,
    Hinting,
    Done,
}

/// What happened.
#[derive(Debug, Clone, Copy, PartialEq, Eq, Structural)]
pub enum CommitEvent {
    /// The latest metadata file was looked up.
    LookedUp { found: bool },
    /// A first snapshot was made.
    Bootstrapped,
    /// The metadata was read and prepared.
    Loaded { prepared: Prepared },
    /// The files of the next version were listed.
    Listed { existing: bool },
    /// The snapshot was produced and its changes made to the metadata.
    Produced,
    /// The metadata file was written, unless there was one.
    Wrote { already_exists: bool },
    /// The files of the version were listed again.
    Checked { conflict: bool },
    /// The hint was written.
    Hinted,
}

/// What to do next.
#[derive(Debug)]
pub enum CommitAction {
    LookUp,
    BootstrapTable,
    Load,
    BootstrapSnapshot,
    ListVersion,
    Produce,
    Write,
    Check,
    /// Delete the metadata file that was written, then look up again.
    DeleteAndLookUp,
    /// Delete the metadata file that was written, then fail.
    DeleteAndFail { error: CommitError },
    WriteHint,
    /// The commit is done, with this number of rows.
    Finish { rows: u64 },
    Fail { error: CommitError },
    /// The lookup's own error is the commit's.
    FailLookup,
}

/// A commit under way.
#[derive(Debug)]
pub struct IcebergCommit {
    pub info: CommitMeta,
    pub attempt: usize,
    pub phase: CommitPhase,
}

/// How a commit begins.
#[derive(Debug)]
pub enum CommitStart {
    /// There is nothing to commit.
    Nothing,
    Commit { commit: IcebergCommit },
}

/// Begins a commit of what the writers wrote: a number of files, and what they ask to be committed.
pub fn start_commit(meta: Option<CommitMeta>, file_count: usize) -> (result: Result<
    CommitStart,
    CommitError,
>)
    ensures
        match meta {
            Some(info) => result == Ok::<CommitStart, CommitError>(
                CommitStart::Commit {
                    commit: IcebergCommit { info, attempt: 1, phase: CommitPhase::LookingUp },
                },
            ),
            None => if file_count == 0 {
                result == Ok::<CommitStart, CommitError>(CommitStart::Nothing)
            } else {
                result == Err::<CommitStart, CommitError>(CommitError::MissingCommitMeta)
            },
        },
{
    match meta {
        Some(info) => Ok(
            CommitStart::Commit {
                commit: IcebergCommit { info, attempt: 1, phase: CommitPhase::LookingUp },
            },
        ),
        None => {
            if file_count == 0 {
                Ok(CommitStart::Nothing)
            } else {
                Err(CommitError::MissingCommitMeta)
            }
        },
    }
}

/// Whether an event can come in a phase.
pub open spec fn expects(phase: CommitPhase, event: CommitEvent) -> bool {
    match event {
        CommitEvent::LookedUp { .. } => phase == CommitPhase::LookingUp,
        CommitEvent::Bootstrapped => phase == CommitPhase::BootstrappingTable || phase
            == CommitPhase::BootstrappingSnapshot,
        CommitEvent::Loaded { .. } => phase == CommitPhase::Loading,
        CommitEvent::Listed { .. } => phase == CommitPhase::Listing,
        CommitEvent::Produced => phase == CommitPhase::Producing,
        CommitEvent::Wrote { .. } => phase == CommitPhase::Writing,
        CommitEvent::Checked { .. } => phase == CommitPhase::Checking,
        CommitEvent::Hinted => phase == CommitPhase::Hinting,
    }
}

/// The phase after an event.
pub open spec fn next_phase(commit: IcebergCommit, event: CommitEvent) -> CommitPhase {
    match event {
        CommitEvent::LookedUp { found } => if found {
            CommitPhase::Loading
        } else if commit.attempt == 1 && is_write(commit.info.operation) && all_hold(
            None,
            commit.info.requirements@,
        ) {
            CommitPhase::BootstrappingTable
        } else {
            CommitPhase::Done
        },
        CommitEvent::Bootstrapped => CommitPhase::Done,
        CommitEvent::Loaded { prepared } => match prepared {
            Prepared::BootstrapSnapshot => CommitPhase::BootstrappingSnapshot,
            Prepared::AlreadyCommitted => CommitPhase::Done,
            Prepared::Commit { .. } => CommitPhase::Listing,
        },
        CommitEvent::Listed { existing } => if existing {
            retry_phase(commit.attempt)
        } else if is_write(commit.info.operation) {
            CommitPhase::Producing
        } else {
            CommitPhase::Done
        },
        CommitEvent::Produced => CommitPhase::Writing,
        CommitEvent::Wrote { already_exists } => if already_exists {
            retry_phase(commit.attempt)
        } else {
            CommitPhase::Checking
        },
        CommitEvent::Checked { conflict } => if conflict {
            retry_phase(commit.attempt)
        } else {
            CommitPhase::Hinting
        },
        CommitEvent::Hinted => CommitPhase::Done,
    }
}

/// The phase after a conflict: another attempt, while there are some left.
pub open spec fn retry_phase(attempt: usize) -> CommitPhase {
    if attempt >= MAX_COMMIT_RETRIES {
        CommitPhase::Done
    } else {
        CommitPhase::LookingUp
    }
}

/// Whether an event is a conflict with another commit.
pub open spec fn is_conflict(event: CommitEvent) -> bool {
    match event {
        CommitEvent::Listed { existing } => existing,
        CommitEvent::Wrote { already_exists } => already_exists,
        CommitEvent::Checked { conflict } => conflict,
        _ => false,
    }
}

/// Whether an action is the one that follows an event.
pub open spec fn is_next_action(commit: IcebergCommit, event: CommitEvent, action: CommitAction) -> bool {
    match event {
        CommitEvent::LookedUp { found } => if found {
            action is Load
        } else if commit.attempt == 1 && is_write(commit.info.operation) {
            if all_hold(None, commit.info.requirements@) {
                action is BootstrapTable
            } else {
                action matches CommitAction::Fail { error } && is_first_error(
                    None,
                    commit.info.requirements@,
                    error,
                )
            }
        } else {
            action is FailLookup
        },
        CommitEvent::Bootstrapped => action == (CommitAction::Finish {
            rows: commit.info.row_count,
        }),
        CommitEvent::Loaded { prepared } => match prepared {
            Prepared::BootstrapSnapshot => action is BootstrapSnapshot,
            Prepared::AlreadyCommitted => action == (CommitAction::Finish { rows: 0 }),
            Prepared::Commit { .. } => action is ListVersion,
        },
        CommitEvent::Listed { existing } => if existing {
            is_retry(commit.attempt, action)
        } else if is_write(commit.info.operation) {
            action is Produce
        } else {
            action == (CommitAction::Fail { error: CommitError::UnsupportedOperation })
        },
        CommitEvent::Produced => action is Write,
        CommitEvent::Wrote { already_exists } => if already_exists {
            is_retry(commit.attempt, action)
        } else {
            action is Check
        },
        CommitEvent::Checked { conflict } => if conflict {
            if commit.attempt >= MAX_COMMIT_RETRIES {
                action == (CommitAction::DeleteAndFail { error: CommitError::Conflict })
            } else {
                action is DeleteAndLookUp
            }
        } else {
            action is WriteHint
        },
        CommitEvent::Hinted => action == (CommitAction::Finish { rows: commit.info.row_count }),
    }
}

/// Whether an action follows a conflict: another attempt, while there are some left.
pub open spec fn is_retry(attempt: usize, action: CommitAction) -> bool {
    if attempt >= MAX_COMMIT_RETRIES {
        action == (CommitAction::Fail { error: CommitError::Conflict })
    } else {
        action is LookUp
    }
}

/// The number of the attempt after an event.
pub open spec fn next_attempt(attempt: usize, event: CommitEvent) -> int {
    if is_conflict(event) && attempt < MAX_COMMIT_RETRIES {
        attempt + 1
    } else {
        attempt as int
    }
}

impl IcebergCommit {
    /// Counts a conflict: whether there is another attempt.
    fn try_again(&mut self) -> (again: bool)
        ensures
            final(self).info == old(self).info,
            again == (old(self).attempt < MAX_COMMIT_RETRIES),
            final(self).phase == retry_phase(old(self).attempt),
            final(self).attempt == if again {
                old(self).attempt + 1
            } else {
                old(self).attempt as int
            },
    {
        if self.attempt >= MAX_COMMIT_RETRIES {
            self.phase = CommitPhase::Done;
            false
        } else {
            self.attempt = self.attempt + 1;
            self.phase = CommitPhase::LookingUp;
            true
        }
    }

    /// Takes an event and says what to do next.
    pub fn step(&mut self, event: CommitEvent) -> (action: CommitAction)
        requires
            expects(old(self).phase, event),
        ensures
            final(self).info == old(self).info,
            final(self).phase == next_phase(*old(self), event),
            final(self).attempt == next_attempt(old(self).attempt, event),
            is_next_action(*old(self), event, action),
    {
        match event {
            CommitEvent::LookedUp { found } => {
                if found {
                    self.phase = CommitPhase::Loading;
                    return CommitAction::Load;
                }
                if self.attempt == 1 && writes(self.info.operation) {
                    match validate_requirements(None, self.info.requirements.as_slice()) {
                        Ok(_) => {
                            self.phase = CommitPhase::BootstrappingTable;
                            CommitAction::BootstrapTable
                        },
                        Err(error) => {
                            self.phase = CommitPhase::Done;
                            CommitAction::Fail { error }
                        },
                    }
                } else {
                    self.phase = CommitPhase::Done;
                    CommitAction::FailLookup
                }
            },
            CommitEvent::Bootstrapped => {
                self.phase = CommitPhase::Done;
                CommitAction::Finish { rows: self.info.row_count }
            },
            CommitEvent::Loaded { prepared } => match prepared {
                Prepared::BootstrapSnapshot => {
                    self.phase = CommitPhase::BootstrappingSnapshot;
                    CommitAction::BootstrapSnapshot
                },
                Prepared::AlreadyCommitted => {
                    self.phase = CommitPhase::Done;
                    CommitAction::Finish { rows: 0 }
                },
                Prepared::Commit { .. } => {
                    self.phase = CommitPhase::Listing;
                    CommitAction::ListVersion
                },
            },
            CommitEvent::Listed { existing } => {
                if existing {
                    if self.try_again() {
                        return CommitAction::LookUp;
                    }
                    return CommitAction::Fail { error: CommitError::Conflict };
                }
                if writes(self.info.operation) {
                    self.phase = CommitPhase::Producing;
                    CommitAction::Produce
                } else {
                    self.phase = CommitPhase::Done;
                    CommitAction::Fail { error: CommitError::UnsupportedOperation }
                }
            },
            CommitEvent::Produced => {
                self.phase = CommitPhase::Writing;
                CommitAction::Write
            },
            CommitEvent::Wrote { already_exists } => {
                if already_exists {
                    if self.try_again() {
                        return CommitAction::LookUp;
                    }
                    return CommitAction::Fail { error: CommitError::Conflict };
                }
                self.phase = CommitPhase::Checking;
                CommitAction::Check
            },
            CommitEvent::Checked { conflict } => {
                if conflict {
                    if self.try_again() {
                        return CommitAction::DeleteAndLookUp;
                    }
                    return CommitAction::DeleteAndFail { error: CommitError::Conflict };
                }
                self.phase = CommitPhase::Hinting;
                CommitAction::WriteHint
            },
            CommitEvent::Hinted => {
                self.phase = CommitPhase::Done;
                CommitAction::Finish { rows: self.info.row_count }
            },
        }
    }
}

/// The commit of a table by a plan with one input.
#[derive(Debug)]
pub struct IcebergCommitExec {
    table_url: String,
    streaming_commit: Option<StreamingCommit>,
}

impl IcebergCommitExec {
    /// The location of the table.
    pub closed spec fn url(&self) -> Seq<char> {
        self.table_url@
    }

    /// The streaming batch that the commit stands for.
    pub closed spec fn streaming(&self) -> Option<StreamingCommit> {
        self.streaming_commit
    }

    /// A commit that stands for no streaming batch.
    pub fn new(table_url: String) -> (exec: Self)
        ensures
            exec.url() == table_url@,
            exec.streaming() is None,
    {
        Self::new_with_streaming(table_url, None)
    }

    /// A commit that may stand for a streaming batch.
    pub fn new_with_streaming(table_url: String, streaming_commit: Option<StreamingCommit>) -> (exec:
        Self)
        ensures
            exec.url() == table_url@,
            exec.streaming() == streaming_commit,
    {
        IcebergCommitExec { table_url, streaming_commit }
    }

    /// The location of the table.
    pub fn table_url(&self) -> (url: &str)
        ensures
            url@ == self.url(),
    {
        self.table_url.as_str()
    }

    /// The streaming batch that the commit stands for.
    pub fn streaming_commit(&self) -> (streaming: &Option<StreamingCommit>)
        ensures
            *streaming == self.streaming(),
    {
        &self.streaming_commit
    }
}

proof fn lemma_new_snapshot_is_found(snapshots: Seq<Snapshot>, snapshot: Snapshot)
    requires
        position(snapshots, snapshot.snapshot_id) < 0,
    ensures
        with_id(snapshots.push(snapshot), snapshot.snapshot_id) == Some(snapshot),
{
    let after = snapshots.push(snapshot);
    assert(after.drop_last() =~= snapshots);
    assert(after.last() == snapshot);
}

/// A batch is committed once: after the snapshot of its commit became current, a commit of that
/// batch of the same query, or of an earlier one, finds it committed, and one of a later batch does
/// not.
pub proof fn law_batch_is_committed_once(
    meta: MetadataModel,
    producer: SnapshotProducer,
    operation: Operation,
    files: Seq<DataFile>,
    streaming: StreamingCommit,
    plan: SnapshotPlan,
    added_rows: i64,
    snapshot_id: i64,
    manifest_list: Seq<char>,
    commit: ActionCommit,
    timestamp_ms: i64,
    file: Seq<char>,
    info: CommitMeta,
    replay: StreamingCommit,
)
    requires
        produces(producer, operation, files, Some(streaming)),
        producer.is_made_by(plan, added_rows, snapshot_id, timestamp_ms, manifest_list, commit),
        position(meta.snapshots, snapshot_id) < 0,
        replay.app_id@ == streaming.app_id@,
    ensures
        ({
            let written = committed_metadata(meta, commit.updates@, timestamp_ms, file);
            preparation(written, info, Some(replay)) matches Some(p) ==> (
            p is AlreadyCommitted <==> replay.batch_id <= streaming.batch_id)
        }),
{
    let updates = commit.updates@;
    let batch_id = streaming.batch_id;
    let app_id = streaming.app_id@;
    let written = committed_metadata(meta, updates, timestamp_ms, file);
    let snapshot = updates[0]->snapshot;
    reveal_with_fuel(with_updates, 3);
    assert(updates.drop_last().drop_last() =~= Seq::<TableUpdate>::empty());
    assert(updates.drop_last().last() == updates[0]);
    assert(written.snapshots == meta.snapshots.push(snapshot));
    assert(written.current_snapshot_id == Some(snapshot.snapshot_id));
    lemma_new_snapshot_is_found(meta.snapshots, snapshot);
    let updated = prepared_metadata(written, info);
    assert(updated.current() == Some(snapshot));
    let props = snapshot.summary.additional_properties@;
    assert(props.dom().contains(STREAM_APP_ID_PROP@));
    assert(props.dom().contains(STREAM_BATCH_ID_PROP@));
    lemma_decimal_denotes(batch_id as nat);
    assert(parse_unsigned(decimal(batch_id as nat), u64::MAX as nat) == Some(batch_id as nat));
    assert(committed(props, app_id) == Some(batch_id));
}

/// Two commits from the same snapshot cannot both be made: once one is, the other's requirement on
/// the main branch does not hold.
pub proof fn law_stale_commit_is_refused(
    meta: MetadataModel,
    updates: Seq<TableUpdate>,
    timestamp_ms: i64,
    file: Seq<char>,
    requirements: Seq<TableRequirement>,
)
    requires
        updates.len() == 2,
        updates[0] matches TableUpdate::AddSnapshot { snapshot } && meta.current_snapshot_id
            != Some(snapshot.snapshot_id),
        updates[1] is SetSnapshotRef,
        requirements.len() == 1,
        requirements[0] matches TableRequirement::RefSnapshotIdMatch { reference, snapshot_id }
            && reference@ == MAIN_BRANCH@ && snapshot_id == meta.current_snapshot_id,
    ensures
        all_hold(Some(meta), requirements),
        !all_hold(Some(committed_metadata(meta, updates, timestamp_ms, file)), requirements),
{
    let written = committed_metadata(meta, updates, timestamp_ms, file);
    reveal_with_fuel(with_updates, 3);
    assert(updates.drop_last().drop_last() =~= Seq::<TableUpdate>::empty());
    assert(updates.drop_last().last() == updates[0]);
    assert(!holds(Some(written), requirements[0]));
}

/// A commit is tried a limited number of times: an attempt's number never exceeds the limit, and a
/// conflict in the last attempt ends the commit.
pub proof fn law_attempts_are_limited(commit: IcebergCommit, event: CommitEvent)
    requires
        1 <= commit.attempt <= MAX_COMMIT_RETRIES,
        expects(commit.phase, event),
    ensures
        commit.attempt <= next_attempt(commit.attempt, event) <= MAX_COMMIT_RETRIES,
        is_conflict(event) && commit.attempt == MAX_COMMIT_RETRIES ==> next_phase(commit, event)
            == CommitPhase::Done,
        is_conflict(event) && commit.attempt < MAX_COMMIT_RETRIES ==> next_phase(commit, event)
            == CommitPhase::LookingUp && next_attempt(commit.attempt, event) == commit.attempt + 1,
{
}

proof fn lemma_put<T: Identified>(items: Seq<T>, item: T, id: T::Id)
    ensures
        ({
            let i = position(items, item.ident());
            let after = if i >= 0 {
                items.update(i, item)
            } else {
                items.push(item)
            };
            &&& with_id(after, item.ident()) == Some(item)
            &&& id != item.ident() ==> with_id(after, id) == with_id(items, id)
        }),
{
    let own = position(items, item.ident());
    let after = if own >= 0 {
        items.update(own, item)
    } else {
        items.push(item)
    };
    law_first_with_an_id_is_found(items, item.ident());
    law_first_with_an_id_is_found(items, id);
    law_first_with_an_id_is_found(after, item.ident());
    law_first_with_an_id_is_found(after, id);
    let at = if own >= 0 {
        own
    } else {
        items.len() as int
    };
    assert(after[at] == item);
    assert forall|j: int| 0 <= j < items.len() && j != own implies #[trigger] after[j]
        == items[j] by {}
    let found = position(after, item.ident());
    if found < at {
        assert(after[found] == items[found]);
        assert(items[found].ident() == item.ident());
    }
    if id != item.ident() {
        let a = position(after, id);
        let b = position(items, id);
        if a >= 0 {
            assert(a != at);
            assert(after[a] == items[a]);
        }
        if b >= 0 {
            assert(b != own);
            assert(after[b] == items[b]);
        }
    }
}

/// A schema that is made current is the current one from then on; schemas with other ids are found
/// as before, and the highest column id is the larger one of the table's and the schema's.
pub proof fn law_updated_schema_is_current(meta: MetadataModel, schema: IcebergSchema, id: i32)
    ensures
        ({
            let after = schema_updated(meta, schema);
            &&& after.schema() == Some(schema)
            &&& id != schema.schema_id ==> with_id(after.schemas, id) == with_id(meta.schemas, id)
            &&& after.last_column_id >= meta.last_column_id
            &&& after.last_column_id >= schema.highest_field_id
            &&& after.last_column_id == meta.last_column_id || after.last_column_id
                == schema.highest_field_id
            &&& after.format_version.number() >= meta.format_version.number()
            &&& after.format_version.number() >= schema.format_version.number()
            &&& after.format_version == meta.format_version || after.format_version
                == schema.format_version
            &&& after.snapshots == meta.snapshots
            &&& after.current_snapshot_id == meta.current_snapshot_id
            &&& after.refs == meta.refs && after.partition_specs == meta.partition_specs
        }),
{
    lemma_put(meta.schemas, schema, id);
}

/// A partition spec that is made the default is the default one from then on; specs with other ids
/// are found as before, and the highest partition field id is the larger one.
pub proof fn law_updated_spec_is_the_default(
    meta: MetadataModel,
    new_spec: PartitionSpec,
    id: i32,
)
    ensures
        ({
            let after = spec_updated(meta, new_spec);
            &&& after.default_spec() == Some(new_spec)
            &&& id != new_spec.spec_id ==> with_id(after.partition_specs, id) == with_id(
                meta.partition_specs,
                id,
            )
            &&& after.last_partition_id >= meta.last_partition_id
            &&& new_spec.highest_field_id matches Some(n) ==> after.last_partition_id >= n
            &&& after.last_partition_id == meta.last_partition_id || Some(after.last_partition_id)
                == new_spec.highest_field_id
            &&& after.schemas == meta.schemas && after.snapshots == meta.snapshots
            &&& after.current_snapshot_id == meta.current_snapshot_id && after.refs == meta.refs
        }),
{
    lemma_put(meta.partition_specs, new_spec, id);
}

/// What a commit brings into the metadata: its schema becomes the current one, and its partition
/// spec, under the default's id where it has none of its own, the default; without them those of the
/// table stay. The commit writes under the default spec, and without one unpartitioned.
pub proof fn law_commits_bring_their_schema_and_spec(meta: MetadataModel, info: CommitMeta)
    ensures
        ({
            let after = prepared_metadata(meta, info);
            &&& info.schema is Some ==> after.schema() == info.schema
            &&& info.schema is None ==> after.schema() == meta.schema()
            &&& info.partition_spec is Some ==> {
                let own = info.partition_spec->0;
                &&& after.default_spec() == Some(commit_spec(meta, info))
                &&& commit_spec(meta, info).highest_field_id == own.highest_field_id
                &&& own.spec_id != 0 || meta.default_spec_id == 0 ==> commit_spec(
                    meta,
                    info,
                ).spec_id == own.spec_id
                &&& own.spec_id == 0 ==> commit_spec(meta, info).spec_id == meta.default_spec_id
                    || meta.default_spec_id == 0
            }
            &&& info.partition_spec is None ==> {
                &&& after.default_spec() == meta.default_spec()
                &&& meta.default_spec() matches Some(s) ==> commit_spec(meta, info) == s
                &&& meta.default_spec() is None ==> commit_spec(meta, info).spec_id == 0
                    && commit_spec(meta, info).highest_field_id is None
            }
            &&& after.snapshots == meta.snapshots
            &&& after.current_snapshot_id == meta.current_snapshot_id
        }),
{
    let with_schema = match info.schema {
        Some(schema) => {
            law_updated_schema_is_current(meta, schema, 0);
            schema_updated(meta, schema)
        },
        None => meta,
    };
    if let Some(new_spec) = info.partition_spec {
        law_updated_spec_is_the_default(
            with_schema,
            numbered_spec(new_spec, with_schema.default_spec_id),
            0,
        );
    }
}

/// How a commit goes on: it needs a schema. On a table without a snapshot a write makes the first
/// one, and nothing else can be committed. Otherwise it is made on top of the current snapshot,
/// unless it is a batch of a query that the current snapshot records, or a later one of it.
pub proof fn law_preparation_decides(
    meta: MetadataModel,
    info: CommitMeta,
    streaming: Option<StreamingCommit>,
)
    ensures
        ({
            let after = prepared_metadata(meta, info);
            let result = preparation(meta, info, streaming);
            let write = info.operation == Operation::Append || info.operation
                == Operation::Overwrite || info.operation == Operation::OverwritePartitions;
            &&& after.schema() is None ==> result is None
            &&& after.schema() is Some && meta.current() is None ==> {
                &&& result is Some <==> write
                &&& result matches Some(p) ==> p is BootstrapSnapshot
            }
            &&& after.schema() is Some && meta.current() is Some ==> {
                &&& result matches Some(p) && !(p is BootstrapSnapshot)
                &&& streaming is None ==> result == Some(
                    Prepared::Commit {
                        schema: after.schema()->0,
                        partition_spec: commit_spec(meta, info),
                    },
                )
            }
        }),
{
    law_commits_bring_their_schema_and_spec(meta, info);
}

/// What must hold of a table: that there is none, only where there is none, and anything else only
/// where there is one with the very id; what cannot be checked never holds.
pub proof fn law_requirements_compare_the_table(
    meta: MetadataModel,
    requirement: TableRequirement,
)
    ensures
        holds(None, requirement) <==> requirement is NotExist,
        requirement is NotExist || requirement is Other ==> !holds(Some(meta), requirement),
        requirement matches TableRequirement::LastAssignedFieldIdMatch { last_assigned_field_id }
            ==> (holds(Some(meta), requirement) <==> meta.last_column_id
            == last_assigned_field_id),
        requirement matches TableRequirement::CurrentSchemaIdMatch { current_schema_id } ==> (holds(
            Some(meta),
            requirement,
        ) <==> meta.current_schema_id == current_schema_id),
        requirement matches TableRequirement::RefSnapshotIdMatch { reference, snapshot_id } ==> {
            &&& reference@ == "main"@ ==> (holds(Some(meta), requirement)
                <==> meta.current_snapshot_id == snapshot_id)
            &&& reference@ != "main"@ && meta.refs.contains_key(reference@) ==> (holds(
                Some(meta),
                requirement,
            ) <==> snapshot_id == Some(meta.refs[reference@].snapshot_id))
            &&& reference@ != "main"@ && !meta.refs.contains_key(reference@) ==> (holds(
                Some(meta),
                requirement,
            ) <==> snapshot_id is None)
        },
{
}

/// A commit makes its snapshot the table's current one: it is added behind all earlier snapshots,
/// which stay, the main branch is at it, and its parent is the snapshot that the commit started from.
/// Other references, the schemas and the specs stay. The log of snapshots and that of metadata files
/// each get one entry, and sequence numbers never go back.
pub proof fn law_commit_makes_its_snapshot_current(
    meta: MetadataModel,
    producer: SnapshotProducer,
    plan: SnapshotPlan,
    added_rows: i64,
    snapshot_id: i64,
    manifest_list: Seq<char>,
    commit: ActionCommit,
    timestamp_ms: i64,
    file: Seq<char>,
)
    requires
        producer.is_made_by(plan, added_rows, snapshot_id, timestamp_ms, manifest_list, commit),
    ensures
        ({
            let after = committed_metadata(meta, commit.updates@, timestamp_ms, file);
            let new = after.snapshots.last();
            &&& after.snapshots.len() == meta.snapshots.len() + 1
            &&& after.snapshots.drop_last() == meta.snapshots
            &&& new.snapshot_id == snapshot_id && after.current_snapshot_id == Some(snapshot_id)
            &&& new.manifest_list@ == manifest_list && new.timestamp_ms == timestamp_ms
            &&& new.sequence_number == plan.sequence_number
            &&& new.summary.operation == plan.operation
            &&& new.summary.additional_properties == producer.snapshot_properties
            &&& new.schema_id == Some(plan.metadata.schema_id)
            &&& producer.is_bootstrap ==> new.parent_snapshot_id is None
            &&& !producer.is_bootstrap ==> new.parent_snapshot_id == Some(
                producer.tx.snapshot.snapshot_id,
            )
            &&& producer.row_lineage_start_row_id is None ==> new.first_row_id is None
                && new.added_rows is None
            &&& producer.row_lineage_start_row_id is Some ==> new.first_row_id
                == producer.row_lineage_start_row_id && new.added_rows == Some(added_rows)
            &&& after.refs.contains_key("main"@) && after.refs["main"@].snapshot_id == snapshot_id
            &&& forall|r: Seq<char>|
                r != "main"@ ==> #[trigger] after.refs.contains_key(r) == meta.refs.contains_key(r)
                    && (meta.refs.contains_key(r) ==> after.refs[r] == meta.refs[r])
            &&& after.schemas == meta.schemas && after.partition_specs == meta.partition_specs
            &&& after.current_schema_id == meta.current_schema_id
            &&& after.default_spec_id == meta.default_spec_id
            &&& after.last_column_id == meta.last_column_id
            &&& after.last_updated_ms == timestamp_ms
            &&& after.last_sequence_number >= meta.last_sequence_number
            &&& after.last_sequence_number >= plan.sequence_number
            &&& after.last_sequence_number == meta.last_sequence_number
                || after.last_sequence_number == plan.sequence_number
            &&& after.snapshot_log == meta.snapshot_log.push(
                SnapshotLog { timestamp_ms, snapshot_id },
            )
            &&& after.metadata_log == meta.metadata_log.push((timestamp_ms, file))
        }),
{
    let updates = commit.updates@;
    let after = committed_metadata(meta, updates, timestamp_ms, file);
    reveal_with_fuel(with_updates, 3);
    reveal_with_fuel(newest_snapshot, 3);
    assert(updates.drop_last().drop_last() =~= Seq::<TableUpdate>::empty());
    assert(updates.drop_last().last() == updates[0]);
    assert(after.snapshots.drop_last() =~= meta.snapshots);
}

/// What a commit does to the files of a table, by its operation: an append keeps all of them, an
/// overwrite none, and an overwrite of partitions those of other partitions than the new files have.
/// In each case all new files are added.
pub proof fn law_operations_keep_the_other_files(
    producer: SnapshotProducer,
    operation: Operation,
    files: Seq<DataFile>,
    streaming: Option<StreamingCommit>,
    plan: SnapshotPlan,
)
    requires
        produces(producer, operation, files, streaming),
        operation == Operation::Append || operation == Operation::Overwrite || operation
            == Operation::OverwritePartitions,
        producer.is_plan(operation != Operation::Append, Ok(plan)),
        producer.tx.snapshot.manifest_list@.len() > 0,
    ensures
        producer.added_data_files@ == files,
        operation == Operation::Append ==> plan.parent_manifest_list is Some
            && producer.partition_filter is None && plan.operation == Operation::Append,
        operation == Operation::Overwrite ==> plan.parent_manifest_list is None && plan.operation
            == Operation::Overwrite,
        operation == Operation::OverwritePartitions ==> {
            &&& plan.parent_manifest_list is Some && plan.operation == Operation::Overwrite
            &&& producer.partition_filter is Some
            &&& forall|p: Seq<Option<Seq<u8>>>| #[trigger]
                partition_models(producer.partition_filter->0@).contains(p) <==> exists|f: int|
                    0 <= f < files.len() && partition_model((#[trigger] files[f]).partition@) == p
        },
{
    if operation == Operation::OverwritePartitions {
        let filter = partition_models(producer.partition_filter->0@);
        let all = files.map_values(|f: DataFile| partition_model(f.partition@));
        assert forall|p: Seq<Option<Seq<u8>>>| #[trigger] filter.contains(p) <==> exists|f: int|
            0 <= f < files.len() && partition_model((#[trigger] files[f]).partition@) == p by {
            assert(filter.to_set().contains(p) == all.to_set().contains(p));
            if all.contains(p) {
                let f = all.index_of(p);
                assert(partition_model(files[f].partition@) == p);
            }
            if exists|f: int|
                0 <= f < files.len() && partition_model((#[trigger] files[f]).partition@) == p {
                let f = choose|f: int|
                    0 <= f < files.len() && partition_model((#[trigger] files[f]).partition@) == p;
                assert(all[f] == p);
            }
        }
    }
}

/// A commit is done only where its snapshot stands: it finishes with the number of its rows after the
/// first snapshot was made or the hint written, which follows a check without a conflict, and with
/// none where the batch was committed before. What was written in spite of a conflict is deleted.
pub proof fn law_commits_finish_only_when_they_stand(
    commit: IcebergCommit,
    event: CommitEvent,
    action: CommitAction,
)
    requires
        is_next_action(commit, event, action),
    ensures
        action matches CommitAction::Finish { rows } ==> {
            ||| (event is Bootstrapped || event is Hinted) && rows == commit.info.row_count
            ||| rows == 0 && event == (CommitEvent::Loaded { prepared: Prepared::AlreadyCommitted })
        },
        action is WriteHint <==> event == (CommitEvent::Checked { conflict: false }),
        action is Check <==> event == (CommitEvent::Wrote { already_exists: false }),
        action is Write <==> event is Produced,
        action is Produce ==> event == (CommitEvent::Listed { existing: false }),
        event == (CommitEvent::Checked { conflict: true }) ==> action is DeleteAndLookUp
            || action is DeleteAndFail,
        action is DeleteAndLookUp || action is DeleteAndFail ==> event == (CommitEvent::Checked {
            conflict: true,
        }),
        event == (CommitEvent::Loaded { prepared: Prepared::AlreadyCommitted }) ==> action
            is Finish,
{
}

/// A query's own commits are told apart from others: what a summary records of a batch is found under
/// the query's id, and under no other.
pub proof fn law_batches_are_recorded_by_query(
    props: Map<Seq<char>, String>,
    batch_id: u64,
    app_id: Seq<char>,
    other: Seq<char>,
)
    requires
        records_batch(props, batch_id, app_id),
        other != app_id,
    ensures
        committed(props, app_id) == Some(batch_id),
        committed(props, other) is None,
        committed(Map::<Seq<char>, String>::empty(), app_id) is None,
{
    assert(props.dom().contains(STREAM_APP_ID_PROP@));
    assert(props.dom().contains(STREAM_BATCH_ID_PROP@));
    lemma_decimal_denotes(batch_id as nat);
    assert(parse_unsigned(decimal(batch_id as nat), u64::MAX as nat) == Some(batch_id as nat));
}

} // verus!
