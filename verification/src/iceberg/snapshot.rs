//! Producing the snapshot of a commit.
//!
//! The producer decides what the snapshot holds; reading and writing manifests is up to the caller,
//! which hands in what it read and the names under which it wrote.

use uuid::Uuid;
use vstd::prelude::*;

use crate::assoc::AssocMap;
use crate::iceberg::metadata::{
    manifest_models, partition_model, same_partition, ActionCommit, DataFile, FormatVersion,
    Literal, ManifestContentType, ManifestFile, ManifestModel, Operation, Snapshot,
    SnapshotReference, SnapshotRetention, Summary, TableRequirement, TableUpdate, MAIN_BRANCH,
};
use crate::text;
use crate::text::signed_decimal;

verus! {

/// A kind of commit, by the name under which a snapshot records it.
pub trait SnapshotProduceOperation {
    /// The name of the operation.
    spec fn name(&self) -> Seq<char>;

    /// The name of the operation.
    fn operation(&self) -> (name: &'static str)
        ensures
            name@ == self.name(),
    ;
}

/// Adding files to those of the parent snapshot.
#[derive(Debug, Clone, Copy, PartialEq, Eq, Structural)]
pub struct AppendOperation;

impl SnapshotProduceOperation for AppendOperation {
    open spec fn name(&self) -> Seq<char> {
        "append"@
    }

    fn operation(&self) -> (name: &'static str) {
        "append"
    }
}

/// Replacing the files of the parent snapshot, or those of some partitions.
#[derive(Debug, Clone, Copy, PartialEq, Eq, Structural)]
pub struct OverwriteOperation;

impl SnapshotProduceOperation for OverwriteOperation {
    open spec fn name(&self) -> Seq<char> {
        "overwrite"@
    }

    fn operation(&self) -> (name: &'static str) {
        "overwrite"
    }
}

/// A transaction: a table and the snapshot that it starts from.
#[derive(Debug)]
pub struct Transaction {
    pub table_uri: String,
    pub snapshot: Snapshot,
}

/// Where the files of a table are.
#[derive(Debug)]
pub struct StoreContext {
    pub table_url: String,
}

/// How paths are written into metadata.
#[derive(Debug, Clone, Copy, PartialEq, Eq, Structural)]
pub enum WritePathMode {
    Absolute,
    Relative,
}

/// What a manifest records of the table.
#[derive(Debug, Clone, Copy, PartialEq, Eq, Structural)]
pub struct ManifestMetadata {
    pub schema_id: i32,
    pub partition_spec_id: i32,
    pub format_version: FormatVersion,
}

/// Produces the snapshot of a commit.
#[derive(Debug)]
pub struct SnapshotProducer<'a> {
    pub tx: &'a Transaction,
    pub added_data_files: Vec<DataFile>,
    pub store_ctx: Option<StoreContext>,
    pub manifest_metadata: Option<ManifestMetadata>,
    pub write_path_mode: WritePathMode,
    /// Whether the snapshot has no parent.
    pub is_bootstrap: bool,
    pub row_lineage_start_row_id: Option<i64>,
    /// The partitions whose parent files are removed; the files of others are kept.
    pub partition_filter: Option<Vec<Vec<Option<Literal>>>>,
    /// Entries of the snapshot's summary.
    pub snapshot_properties: AssocMap<String, String>,
}

/// What is decided before any file is read.
#[derive(Debug)]
pub struct SnapshotPlan {
    /// Append, or overwrite.
    pub operation: Operation,
    pub sequence_number: i64,
    /// The manifest list to read.
    pub parent_manifest_list: Option<String>,
    pub metadata: ManifestMetadata,
}

/// The contents of a parent's manifest, and where its retained entries are written if only some
/// are retained.
#[derive(Debug)]
pub struct LoadedManifest {
    pub partitions: Vec<Vec<Option<Literal>>>,
    pub retained_path: String,
    pub retained_length: i64,
}

/// The entries of a new manifest list and the number of rows that got a row id.
#[derive(Debug)]
pub struct ManifestListing {
    pub entries: Vec<ManifestFile>,
    pub added_rows: i64,
}

/// The values of partitions.
pub open spec fn partition_models(ps: Seq<Vec<Option<Literal>>>) -> Seq<Seq<Option<Seq<u8>>>> {
    ps.map_values(|p: Vec<Option<Literal>>| partition_model(p@))
}

/// The positions of the entries whose partition is not in the filter, in order.
pub open spec fn retained(
    partitions: Seq<Seq<Option<Seq<u8>>>>,
    filter: Seq<Seq<Option<Seq<u8>>>>,
) -> Seq<usize>
    decreases partitions.len(),
{
    if partitions.len() == 0 {
        Seq::empty()
    } else {
        let before = retained(partitions.drop_last(), filter);
        if filter.contains(partitions.last()) {
            before
        } else {
            before.push((partitions.len() - 1) as usize)
        }
    }
}

pub(crate) fn in_filter(filter: &[Vec<Option<Literal>>], partition: &[Option<Literal>]) -> (found: bool)
    ensures
        found == partition_models(filter@).contains(partition_model(partition@)),
{
    let ghost models = partition_models(filter@);
    let mut i: usize = 0;
    while i < filter.len()
        invariant
            i <= filter@.len(),
            models == partition_models(filter@),
            forall|k: int| 0 <= k < i ==> models[k] != partition_model(partition@),
        decreases filter@.len() - i,
    {
        if same_partition(filter[i].as_slice(), partition) {
            assert(models[i as int] == partition_model(partition@));
            return true;
        }
        i = i + 1;
    }
    false
}

/// The positions of the entries of a manifest that stay when the files of some partitions are
/// removed.
pub fn retained_positions(
    partitions: &[Vec<Option<Literal>>],
    filter: &[Vec<Option<Literal>>],
) -> (positions: Vec<usize>)
    ensures
        positions@ == retained(partition_models(partitions@), partition_models(filter@)),
{
    let ghost models = partition_models(partitions@);
    let ghost dropped = partition_models(filter@);
    let mut positions: Vec<usize> = Vec::new();
    let mut i: usize = 0;
    assert(models.take(0) =~= Seq::<Seq<Option<Seq<u8>>>>::empty());
    while i < partitions.len()
        invariant
            i <= partitions@.len(),
            models == partition_models(partitions@),
            dropped == partition_models(filter@),
            positions@ == retained(models.take(i as int), dropped),
        decreases partitions@.len() - i,
    {
        proof {
            assert(models.take(i + 1).drop_last() =~= models.take(i as int));
            assert(models.take(i + 1).last() == partition_model(partitions@[i as int]@));
        }
        if !in_filter(filter, partitions[i].as_slice()) {
            positions.push(i);
        }
        i = i + 1;
    }
    assert(models.take(i as int) =~= models);
    positions
}

/// The entry that stands for what is retained of a manifest.
pub open spec fn retained_manifest(
    file: ManifestModel,
    path: Seq<char>,
    length: i64,
    count: i32,
) -> ManifestModel {
    ManifestModel {
        manifest_path: path,
        manifest_length: length,
        added_files_count: 0,
        existing_files_count: count,
        deleted_files_count: 0,
        added_rows_count: None,
        existing_rows_count: None,
        deleted_rows_count: None,
        first_row_id: None,
        ..file
    }
}

/// What stays of a parent's manifest, as entries of the new list: a manifest of deletes stays, a
/// data manifest stays where nothing is removed from it, is replaced where something is, and is
/// dropped where everything is.
pub open spec fn kept_manifest(
    file: ManifestModel,
    loaded: LoadedManifest,
    filter: Seq<Seq<Option<Seq<u8>>>>,
) -> Seq<ManifestModel> {
    if file.content != ManifestContentType::Data {
        seq![file]
    } else {
        let partitions = partition_models(loaded.partitions@);
        let count = retained(partitions, filter).len();
        if count == partitions.len() {
            seq![file]
        } else if count > 0 {
            seq![
                retained_manifest(
                    file,
                    loaded.retained_path@,
                    loaded.retained_length,
                    count as i32,
                ),
            ]
        } else {
            Seq::empty()
        }
    }
}

/// What stays of a parent's manifests.
pub open spec fn kept_manifests(
    files: Seq<ManifestModel>,
    loaded: Seq<LoadedManifest>,
    filter: Seq<Seq<Option<Seq<u8>>>>,
) -> Seq<ManifestModel>
    decreases files.len(),
{
    if files.len() == 0 {
        Seq::empty()
    } else {
        kept_manifests(files.drop_last(), loaded, filter) + kept_manifest(
            files.last(),
            loaded[files.len() - 1],
            filter,
        )
    }
}

impl ManifestFile {
    /// A copy.
    pub fn copy(&self) -> (file: Self)
        ensures
            file@ == self@,
    {
        ManifestFile {
            manifest_path: self.manifest_path.as_str().to_owned(),
            manifest_length: self.manifest_length,
            partition_spec_id: self.partition_spec_id,
            content: self.content,
            sequence_number: self.sequence_number,
            min_sequence_number: self.min_sequence_number,
            added_snapshot_id: self.added_snapshot_id,
            added_files_count: self.added_files_count,
            existing_files_count: self.existing_files_count,
            deleted_files_count: self.deleted_files_count,
            added_rows_count: self.added_rows_count,
            existing_rows_count: self.existing_rows_count,
            deleted_rows_count: self.deleted_rows_count,
            first_row_id: self.first_row_id,
        }
    }
}

/// Whether a manifest's rows have no ids yet.
pub open spec fn needs_row_ids(file: ManifestModel) -> bool {
    file.content == ManifestContentType::Data && file.first_row_id is None
}

/// A count that is zero where there is none.
pub open spec fn count_or_zero(count: Option<i64>) -> int {
    match count {
        Some(n) => n as int,
        None => 0,
    }
}

/// The number of rows of a manifest that get ids.
pub open spec fn rows_of(file: ManifestModel) -> int {
    if needs_row_ids(file) {
        count_or_zero(file.added_rows_count) + count_or_zero(file.existing_rows_count)
    } else {
        0
    }
}

/// The number of rows of manifests that get ids.
pub open spec fn assigned_rows(files: Seq<ManifestModel>) -> int
    decreases files.len(),
{
    if files.len() == 0 {
        0
    } else {
        assigned_rows(files.drop_last()) + rows_of(files.last())
    }
}

/// The manifests with row ids, given one after the other from `start`.
pub open spec fn with_row_ids(files: Seq<ManifestModel>, start: int) -> Seq<ManifestModel>
    decreases files.len(),
{
    if files.len() == 0 {
        Seq::empty()
    } else {
        let file = files.last();
        with_row_ids(files.drop_last(), start).push(
            if needs_row_ids(file) {
                ManifestModel {
                    first_row_id: Some((start + assigned_rows(files.drop_last())) as i64),
                    ..file
                }
            } else {
                file
            },
        )
    }
}

/// Whether a number is an `i64`.
pub open spec fn is_i64(n: int) -> bool {
    i64::MIN <= n <= i64::MAX
}

/// Whether the row ids that manifests get, and the counts of rows, are within the machine's limits.
pub open spec fn row_ids_fit(files: Seq<ManifestModel>, start: int) -> bool {
    &&& forall|n: int|
        0 <= n <= files.len() ==> is_i64(start + #[trigger] assigned_rows(files.take(n)))
            && is_i64(assigned_rows(files.take(n)))
    &&& forall|i: int| 0 <= i < files.len() ==> is_i64(#[trigger] rows_of(files[i]))
}

/// The number of rows of data files.
pub open spec fn data_rows(files: Seq<DataFile>) -> int
    decreases files.len(),
{
    if files.len() == 0 {
        0
    } else {
        data_rows(files.drop_last()) + (files.last().record_count as i64) as int
    }
}

/// Whether the number of rows of data files is within the machine's limits.
pub open spec fn data_rows_fit(files: Seq<DataFile>) -> bool {
    forall|n: int| 0 <= n <= files.len() ==> is_i64(#[trigger] data_rows(files.take(n)))
}

fn wide_count(count: Option<i64>) -> (n: i128)
    ensures
        n == count_or_zero(count),
{
    match count {
        Some(n) => n as i128,
        None => 0,
    }
}

fn wide_is_i64(n: i128) -> (fits: bool)
    ensures
        fits == is_i64(n as int),
{
    -9223372036854775808 <= n && n <= 9223372036854775807
}

fn check_row_ids(files: &[ManifestFile], start: i64) -> (fit: bool)
    ensures
        fit == row_ids_fit(manifest_models(files@), start as int),
{
    let ghost models = manifest_models(files@);
    let mut total: i128 = 0;
    let mut i: usize = 0;
    assert(models.take(0) =~= Seq::<ManifestModel>::empty());
    while i < files.len()
        invariant
            i <= files@.len(),
            models == manifest_models(files@),
            total == assigned_rows(models.take(i as int)),
            forall|n: int|
                0 <= n <= i ==> is_i64(start + #[trigger] assigned_rows(models.take(n))) && is_i64(
                    assigned_rows(models.take(n)),
                ),
            forall|k: int| 0 <= k < i ==> is_i64(#[trigger] rows_of(models[k])),
        decreases files@.len() - i,
    {
        proof {
            assert(is_i64(assigned_rows(models.take(i as int))));
            assert(models.take(i + 1).drop_last() =~= models.take(i as int));
            assert(models.take(i + 1).last() == files@[i as int]@);
        }
        let file = &files[i];
        if file.content == ManifestContentType::Data && file.first_row_id.is_none() {
            let rows: i128 = wide_count(file.added_rows_count) + wide_count(
                file.existing_rows_count,
            );
            assert(rows == rows_of(models[i as int]));
            if !wide_is_i64(rows) {
                return false;
            }
            total = total + rows;
        } else {
            assert(rows_of(models[i as int]) == 0);
        }
        assert(total == assigned_rows(models.take(i + 1)));
        if !wide_is_i64(total) || !wide_is_i64(start as i128 + total) {
            return false;
        }
        i = i + 1;
    }
    assert(models.len() == files@.len());
    true
}

fn check_data_rows(files: &[DataFile]) -> (fit: bool)
    ensures
        fit == data_rows_fit(files@),
{
    let mut total: i128 = 0;
    let mut i: usize = 0;
    assert(files@.take(0) =~= Seq::<DataFile>::empty());
    while i < files.len()
        invariant
            i <= files@.len(),
            total == data_rows(files@.take(i as int)),
            forall|n: int| 0 <= n <= i ==> is_i64(#[trigger] data_rows(files@.take(n))),
        decreases files@.len() - i,
    {
        proof {
            assert(is_i64(data_rows(files@.take(i as int))));
            assert(files@.take(i + 1).drop_last() =~= files@.take(i as int));
            assert(files@.take(i + 1).last() == files@[i as int]);
        }
        let rows: i64 = files[i].record_count as i64;
        total = total + rows as i128;
        assert(total == data_rows(files@.take(i + 1)));
        if !wide_is_i64(total) {
            return false;
        }
        i = i + 1;
    }
    true
}

fn count_data_rows(files: &[DataFile]) -> (rows: i64)
    requires
        data_rows_fit(files@),
    ensures
        rows == data_rows(files@),
{
    let mut total: i64 = 0;
    let mut i: usize = 0;
    assert(files@.take(0) =~= Seq::<DataFile>::empty());
    while i < files.len()
        invariant
            i <= files@.len(),
            data_rows_fit(files@),
            total == data_rows(files@.take(i as int)),
        decreases files@.len() - i,
    {
        proof {
            assert(files@.take(i + 1).drop_last() =~= files@.take(i as int));
            assert(files@.take(i + 1).last() == files@[i as int]);
            assert(is_i64(data_rows(files@.take(i + 1))));
        }
        let rows: i64 = files[i].record_count as i64;
        total = total + rows;
        i = i + 1;
    }
    assert(files@.take(i as int) =~= files@);
    total
}

/// Gives the manifests whose rows have no ids yet their ids, from `start`; the number of rows that
/// got one.
pub fn assign_row_ids(files: &mut Vec<ManifestFile>, start: i64) -> (rows: i64)
    requires
        row_ids_fit(manifest_models(old(files)@), start as int),
    ensures
        manifest_models(final(files)@) == with_row_ids(manifest_models(old(files)@), start as int),
        rows == assigned_rows(manifest_models(old(files)@)),
{
    let ghost models = manifest_models(files@);
    let mut rows: i64 = 0;
    let mut i: usize = 0;
    assert(models.take(0) =~= Seq::<ManifestModel>::empty());
    assert(models.len() == files@.len());
    while i < files.len()
        invariant
            i <= files@.len() == models.len(),
            row_ids_fit(models, start as int),
            rows == assigned_rows(models.take(i as int)),
            manifest_models(files@).take(i as int) == with_row_ids(
                models.take(i as int),
                start as int,
            ),
            forall|k: int| i <= k < models.len() ==> (#[trigger] files@[k])@ == models[k],
        decreases files@.len() - i,
    {
        let ghost before = manifest_models(files@);
        proof {
            assert(models.take(i + 1).drop_last() =~= models.take(i as int));
            assert(models.take(i + 1).last() == models[i as int]);
            assert(files@[i as int]@ == models[i as int]);
            assert(is_i64(start + assigned_rows(models.take(i as int))));
            assert(is_i64(start + assigned_rows(models.take(i + 1))));
            assert(is_i64(rows_of(models[i as int])));
        }
        if files[i].content == ManifestContentType::Data && files[i].first_row_id.is_none() {
            let added: i64 = match files[i].added_rows_count {
                Some(n) => n,
                None => 0,
            };
            let existing: i64 = match files[i].existing_rows_count {
                Some(n) => n,
                None => 0,
            };
            files[i].first_row_id = Some(start + rows);
            rows = rows + (added + existing);
        }
        proof {
            let after = manifest_models(files@);
            assert(after.take(i + 1).drop_last() =~= before.take(i as int));
            assert(after.take(i + 1) =~= before.take(i as int).push(files@[i as int]@));
        }
        i = i + 1;
    }
    assert(models.take(i as int) =~= models);
    assert(manifest_models(files@).take(i as int) =~= manifest_models(files@));
    rows
}

/// Whether a text has the form of a hyphenated UUID in lower case: groups of eight, four, four, four
/// and twelve hexadecimal digits.
pub open spec fn is_uuid_text(s: Seq<char>) -> bool {
    &&& s.len() == 36
    &&& forall|i: int|
        0 <= i < 36 ==> if i == 8 || i == 13 || i == 18 || i == 23 {
            #[trigger] s[i] == '-'
        } else {
            '0' <= s[i] <= '9' || 'a' <= s[i] <= 'f'
        }
}

/// The text of `uuid::Uuid::new_v4`, a random UUID: its `Display` form, hyphenated and in lower
/// case. Which one it is depends on chance; it panics where the system has no source of randomness.
#[verifier::external_body]
fn random_uuid() -> (text: String)
    ensures
        is_uuid_text(text@),
{
    String::from(Uuid::new_v4())
}

/// A new path for a manifest below the table.
pub fn new_manifest_name() -> (name: String)
    ensures
        exists|unique: Seq<char>| #[trigger]
            is_uuid_text(unique) && name@ == "metadata/manifest-"@ + unique + ".avro"@,
{
    let unique = random_uuid();
    manifest_name(unique.as_str())
}

/// A new path for a manifest of retained entries below the table.
pub fn new_retained_manifest_name() -> (name: String)
    ensures
        exists|unique: Seq<char>| #[trigger]
            is_uuid_text(unique) && name@ == "metadata/manifest-retained-"@ + unique + ".avro"@,
{
    let unique = random_uuid();
    retained_manifest_name(unique.as_str())
}

/// The path of a manifest below the table, by a unique text.
pub fn manifest_name(unique: &str) -> (name: String)
    ensures
        name@ == "metadata/manifest-"@ + unique@ + ".avro"@,
{
    let mut name = "metadata/manifest-".to_owned();
    name.append(unique);
    name.append(".avro");
    name
}

/// The path of a manifest of retained entries below the table, by a unique text.
pub fn retained_manifest_name(unique: &str) -> (name: String)
    ensures
        name@ == "metadata/manifest-retained-"@ + unique@ + ".avro"@,
{
    let mut name = "metadata/manifest-retained-".to_owned();
    name.append(unique);
    name.append(".avro");
    name
}

/// The path of a snapshot's manifest list below the table.
pub fn manifest_list_name(snapshot_id: i64) -> (name: String)
    ensures
        name@ == "metadata/snap-"@ + signed_decimal(snapshot_id as int) + ".avro"@,
{
    let mut name = "metadata/snap-".to_owned();
    text::push_signed_decimal(&mut name, snapshot_id);
    name.append(".avro");
    name
}

impl<'a> SnapshotProducer<'a> {
    /// A producer that adds files on top of the transaction's snapshot.
    pub fn new(
        tx: &'a Transaction,
        added_data_files: Vec<DataFile>,
        store_ctx: Option<StoreContext>,
        manifest_metadata: Option<ManifestMetadata>,
    ) -> (producer: Self)
        ensures
            producer.tx == tx,
            producer.added_data_files == added_data_files,
            producer.store_ctx == store_ctx,
            producer.manifest_metadata == manifest_metadata,
            producer.write_path_mode == WritePathMode::Absolute,
            !producer.is_bootstrap,
            producer.row_lineage_start_row_id is None,
            producer.partition_filter is None,
            producer.snapshot_properties@ == Map::<Seq<char>, String>::empty(),
    {
        SnapshotProducer {
            tx,
            added_data_files,
            store_ctx,
            manifest_metadata,
            write_path_mode: WritePathMode::Absolute,
            is_bootstrap: false,
            row_lineage_start_row_id: None,
            partition_filter: None,
            snapshot_properties: AssocMap::new(),
        }
    }

    /// Sets the entries of the snapshot's summary.
    pub fn with_snapshot_properties(self, props: AssocMap<String, String>) -> (producer: Self)
        ensures
            producer == (SnapshotProducer { snapshot_properties: props, ..self }),
    {
        SnapshotProducer { snapshot_properties: props, ..self }
    }

    /// Sets the partitions whose parent files are removed.
    pub fn with_partition_filter(self, filter: Vec<Vec<Option<Literal>>>) -> (producer: Self)
        ensures
            producer == (SnapshotProducer { partition_filter: Some(filter), ..self }),
    {
        SnapshotProducer { partition_filter: Some(filter), ..self }
    }

    /// Sets how paths are written into metadata.
    pub fn with_write_path_mode(self, mode: WritePathMode) -> (producer: Self)
        ensures
            producer == (SnapshotProducer { write_path_mode: mode, ..self }),
    {
        SnapshotProducer { write_path_mode: mode, ..self }
    }

    /// Sets whether the snapshot is the table's first, without a parent.
    pub fn with_bootstrap(self, is_bootstrap: bool) -> (producer: Self)
        ensures
            producer == (SnapshotProducer { is_bootstrap, ..self }),
    {
        SnapshotProducer { is_bootstrap, ..self }
    }

    /// Sets the first row id to give, where rows get ids.
    pub fn with_row_lineage_start_row_id(self, start_row_id: Option<i64>) -> (producer: Self)
        ensures
            producer == (SnapshotProducer { row_lineage_start_row_id: start_row_id, ..self }),
    {
        SnapshotProducer { row_lineage_start_row_id: start_row_id, ..self }
    }

    /// Checks data files before they are added: every file is accepted.
    pub fn validate_added_data_files(&self, _files: &[DataFile]) -> (result: Result<(), String>)
        ensures
            result is Ok,
    {
        Ok(())
    }

    /// What a manifest records of the table: as given, else by the transaction's snapshot.
    pub open spec fn metadata(&self) -> ManifestMetadata {
        match self.manifest_metadata {
            Some(meta) => meta,
            None => ManifestMetadata {
                schema_id: match self.tx.snapshot.schema_id {
                    Some(id) => id,
                    None => 0,
                },
                partition_spec_id: 0,
                format_version: FormatVersion::V2,
            },
        }
    }

    /// The sequence number of the new snapshot.
    pub open spec fn sequence_number(&self) -> int {
        if self.is_bootstrap {
            1
        } else {
            self.tx.snapshot.sequence_number + 1
        }
    }

    /// Whether the parent's manifests are read: an overwrite of the whole table keeps none.
    pub open spec fn loads_parent(&self, overwrite: bool) -> bool {
        &&& !self.is_bootstrap
        &&& !overwrite || self.partition_filter is Some
        &&& self.tx.snapshot.manifest_list@.len() > 0
    }

    /// Whether a result is the plan of a snapshot that adds files, or overwrites.
    pub open spec fn is_plan(&self, overwrite: bool, result: Result<SnapshotPlan, String>) -> bool {
        match result {
            Ok(plan) => {
                &&& self.store_ctx is Some
                &&& plan.operation == if overwrite {
                    Operation::Overwrite
                } else {
                    Operation::Append
                }
                &&& plan.sequence_number == self.sequence_number()
                &&& plan.metadata == self.metadata()
                &&& match plan.parent_manifest_list {
                    Some(path) => self.loads_parent(overwrite) && path@
                        == self.tx.snapshot.manifest_list@,
                    None => !self.loads_parent(overwrite),
                }
            },
            Err(e) => self.store_ctx is None && e@ == "store context not available"@,
        }
    }

    /// Decides what to read and how to number the snapshot.
    pub fn plan<O: SnapshotProduceOperation>(&self, op: &O) -> (result: Result<
        SnapshotPlan,
        String,
    >)
        requires
            self.is_bootstrap || self.tx.snapshot.sequence_number < i64::MAX,
        ensures
            self.is_plan(op.name() == "overwrite"@, result),
    {
        if self.store_ctx.is_none() {
            return Err("store context not available".to_owned());
        }
        let overwrite = text::str_eq(op.operation(), "overwrite");
        let operation = if overwrite {
            Operation::Overwrite
        } else {
            Operation::Append
        };
        let metadata = match self.manifest_metadata {
            Some(meta) => meta,
            None => ManifestMetadata {
                schema_id: match self.tx.snapshot.schema_id {
                    Some(id) => id,
                    None => 0,
                },
                partition_spec_id: 0,
                format_version: FormatVersion::V2,
            },
        };
        let sequence_number: i64 = if self.is_bootstrap {
            1
        } else {
            self.tx.snapshot.sequence_number + 1
        };
        let load = !self.is_bootstrap && (!overwrite || self.partition_filter.is_some())
            && !self.tx.snapshot.manifest_list.as_str().is_empty();
        let parent_manifest_list = if load {
            Some(self.tx.snapshot.manifest_list.as_str().to_owned())
        } else {
            None
        };
        Ok(SnapshotPlan { operation, sequence_number, parent_manifest_list, metadata })
    }

    /// The entries of the parent's manifest list that the new list keeps. `loaded` holds, for each
    /// of them, the contents of the manifest where a filter asks for it.
    pub fn parent_manifests(&self, list: &[ManifestFile], loaded: &[LoadedManifest]) -> (kept: Vec<
        ManifestFile,
    >)
        requires
            self.partition_filter is Some ==> loaded@.len() == list@.len(),
        ensures
            manifest_models(kept@) == match self.partition_filter {
                Some(filter) => kept_manifests(
                    manifest_models(list@),
                    loaded@,
                    partition_models(filter@),
                ),
                None => manifest_models(list@),
            },
    {
        let ghost models = manifest_models(list@);
        let mut kept: Vec<ManifestFile> = Vec::new();
        let mut i: usize = 0;
        proof {
            assert(models.take(0) =~= Seq::<ManifestModel>::empty());
            assert(manifest_models(kept@) =~= Seq::<ManifestModel>::empty());
        }
        match &self.partition_filter {
            Some(filter) => {
                let ghost dropped = partition_models(filter@);
                while i < list.len()
                    invariant
                        i <= list@.len() == loaded@.len(),
                        models == manifest_models(list@),
                        dropped == partition_models(filter@),
                        manifest_models(kept@) == kept_manifests(
                            models.take(i as int),
                            loaded@,
                            dropped,
                        ),
                    decreases list@.len() - i,
                {
                    let ghost before = manifest_models(kept@);
                    let file = &list[i];
                    proof {
                        assert(models.take(i + 1).drop_last() =~= models.take(i as int));
                        assert(models.take(i + 1).last() == file@);
                    }
                    if file.content != ManifestContentType::Data {
                        kept.push(file.copy());
                        assert(manifest_models(kept@) =~= before + seq![file@]);
                    } else {
                        let positions = retained_positions(
                            loaded[i].partitions.as_slice(),
                            filter.as_slice(),
                        );
                        let ghost partitions = partition_models(loaded@[i as int].partitions@);
                        assert(partitions.len() == loaded@[i as int].partitions@.len());
                        if positions.len() == loaded[i].partitions.len() {
                            kept.push(file.copy());
                            assert(manifest_models(kept@) =~= before + seq![file@]);
                        } else if positions.len() > 0 {
                            let mut rest = file.copy();
                            rest.manifest_path = loaded[i].retained_path.as_str().to_owned();
                            rest.manifest_length = loaded[i].retained_length;
                            rest.added_files_count = 0;
                            rest.existing_files_count = positions.len() as i32;
                            rest.deleted_files_count = 0;
                            rest.added_rows_count = None;
                            rest.existing_rows_count = None;
                            rest.deleted_rows_count = None;
                            rest.first_row_id = None;
                            let ghost view = rest@;
                            kept.push(rest);
                            proof {
                                let count = retained(partitions, dropped).len();
                                assert(count == positions@.len());
                                assert(view =~= retained_manifest(
                                    file@,
                                    loaded@[i as int].retained_path@,
                                    loaded@[i as int].retained_length,
                                    count as i32,
                                ));
                                assert(manifest_models(kept@) =~= before + seq![view]);
                            }
                        } else {
                            assert(before + Seq::<ManifestModel>::empty() =~= before);
                        }
                    }
                    i = i + 1;
                }
                assert(models.take(i as int) =~= models);
            },
            None => {
                while i < list.len()
                    invariant
                        i <= list@.len(),
                        models == manifest_models(list@),
                        manifest_models(kept@) == models.take(i as int),
                    decreases list@.len() - i,
                {
                    let ghost before = manifest_models(kept@);
                    kept.push(list[i].copy());
                    assert(manifest_models(kept@) =~= before.push(models[i as int]));
                    assert(models.take(i + 1) =~= models.take(i as int).push(models[i as int]));
                    i = i + 1;
                }
                assert(models.take(i as int) =~= models);
            },
        }
        kept
    }

    /// Whether the ids and counts of rows are within the machine's limits.
    pub open spec fn rows_fit(&self, parents: Seq<ManifestModel>) -> bool {
        &&& data_rows_fit(self.added_data_files@)
        &&& self.row_lineage_start_row_id matches Some(start) ==> {
            &&& row_ids_fit(parents, start as int)
            &&& is_i64(assigned_rows(parents) + data_rows(self.added_data_files@))
        }
    }

    /// Whether the ids and counts of rows are within the machine's limits.
    pub fn check_rows(&self, parents: &[ManifestFile]) -> (fit: bool)
        ensures
            fit == self.rows_fit(manifest_models(parents@)),
    {
        if !check_data_rows(self.added_data_files.as_slice()) {
            return false;
        }
        match self.row_lineage_start_row_id {
            Some(start) => {
                if !check_row_ids(parents, start) {
                    return false;
                }
                let ghost models = manifest_models(parents@);
                let mut total: i128 = count_data_rows(self.added_data_files.as_slice()) as i128;
                let ghost data = total as int;
                let mut i: usize = 0;
                proof {
                    assert(models.take(0) =~= Seq::<ManifestModel>::empty());
                    assert(models.len() == parents@.len());
                }
                while i < parents.len()
                    invariant
                        i <= parents@.len() == models.len(),
                        models == manifest_models(parents@),
                        is_i64(data),
                        row_ids_fit(models, start as int),
                        total == data + assigned_rows(models.take(i as int)),
                    decreases parents@.len() - i,
                {
                    proof {
                        assert(models.take(i + 1).drop_last() =~= models.take(i as int));
                        assert(models.take(i + 1).last() == parents@[i as int]@);
                        assert(is_i64(assigned_rows(models.take(i as int))));
                        assert(is_i64(rows_of(models[i as int])));
                    }
                    let file = &parents[i];
                    if file.content == ManifestContentType::Data && file.first_row_id.is_none() {
                        total = total + (wide_count(file.added_rows_count) + wide_count(
                            file.existing_rows_count,
                        ));
                    }
                    i = i + 1;
                }
                assert(models.take(i as int) =~= models);
                wide_is_i64(total)
            },
            None => true,
        }
    }

    /// The entry of the new manifest.
    pub open spec fn new_manifest(
        &self,
        plan: SnapshotPlan,
        parents: Seq<ManifestModel>,
        snapshot_id: i64,
        path: Seq<char>,
        length: i64,
    ) -> ManifestModel {
        ManifestModel {
            manifest_path: path,
            manifest_length: length,
            partition_spec_id: plan.metadata.partition_spec_id,
            content: ManifestContentType::Data,
            sequence_number: plan.sequence_number,
            min_sequence_number: plan.sequence_number,
            added_snapshot_id: snapshot_id,
            added_files_count: self.added_data_files@.len() as i32,
            existing_files_count: 0,
            deleted_files_count: 0,
            added_rows_count: Some(data_rows(self.added_data_files@) as i64),
            existing_rows_count: Some(0),
            deleted_rows_count: Some(0),
            first_row_id: match self.row_lineage_start_row_id {
                Some(start) => Some((start + assigned_rows(parents)) as i64),
                None => None,
            },
        }
    }

    /// The entries of the new manifest list: those of the parent that are kept, with row ids where
    /// rows get ids, then the new manifest.
    pub open spec fn new_list(
        &self,
        plan: SnapshotPlan,
        parents: Seq<ManifestModel>,
        snapshot_id: i64,
        path: Seq<char>,
        length: i64,
    ) -> Seq<ManifestModel> {
        let kept = match self.row_lineage_start_row_id {
            Some(start) => with_row_ids(parents, start as int),
            None => parents,
        };
        kept.push(self.new_manifest(plan, parents, snapshot_id, path, length))
    }

    /// The number of rows that get ids.
    pub open spec fn new_rows(&self, parents: Seq<ManifestModel>) -> int {
        if self.row_lineage_start_row_id is Some {
            assigned_rows(parents) + data_rows(self.added_data_files@)
        } else {
            0
        }
    }

    /// The entries of the new manifest list, given those of the parent that are kept and where the
    /// new manifest was written.
    pub fn manifest_list(
        &self,
        plan: &SnapshotPlan,
        parents: Vec<ManifestFile>,
        snapshot_id: i64,
        manifest_path: String,
        manifest_length: i64,
    ) -> (listing: ManifestListing)
        requires
            self.rows_fit(manifest_models(parents@)),
        ensures
            manifest_models(listing.entries@) == self.new_list(
                *plan,
                manifest_models(parents@),
                snapshot_id,
                manifest_path@,
                manifest_length,
            ),
            listing.added_rows == self.new_rows(manifest_models(parents@)),
    {
        let ghost models = manifest_models(parents@);
        let data = count_data_rows(self.added_data_files.as_slice());
        let mut entries = parents;
        let mut added_rows: i64 = 0;
        let mut first_row_id: Option<i64> = None;
        match self.row_lineage_start_row_id {
            Some(start) => {
                proof {
                    assert(models.take(models.len() as int) =~= models);
                    assert(is_i64(start + assigned_rows(models.take(models.len() as int))));
                }
                let assigned = assign_row_ids(&mut entries, start);
                first_row_id = Some(start + assigned);
                added_rows = assigned + data;
            },
            None => {},
        }
        let ghost kept = manifest_models(entries@);
        let file = ManifestFile {
            manifest_path,
            manifest_length,
            partition_spec_id: plan.metadata.partition_spec_id,
            content: ManifestContentType::Data,
            sequence_number: plan.sequence_number,
            min_sequence_number: plan.sequence_number,
            added_snapshot_id: snapshot_id,
            added_files_count: self.added_data_files.len() as i32,
            existing_files_count: 0,
            deleted_files_count: 0,
            added_rows_count: Some(data),
            existing_rows_count: Some(0),
            deleted_rows_count: Some(0),
            first_row_id,
        };
        let ghost view = file@;
        entries.push(file);
        assert(manifest_models(entries@) =~= kept.push(view));
        ManifestListing { entries, added_rows }
    }

    /// The snapshot that the main branch must be at.
    pub open spec fn parent(&self) -> Option<i64> {
        if self.is_bootstrap {
            None
        } else {
            Some(self.tx.snapshot.snapshot_id)
        }
    }

    /// Whether changes make a new snapshot of the producer the table's current one, where the main
    /// branch still is at the parent.
    pub open spec fn is_made_by(
        &self,
        plan: SnapshotPlan,
        added_rows: i64,
        snapshot_id: i64,
        timestamp_ms: i64,
        manifest_list: Seq<char>,
        commit: ActionCommit,
    ) -> bool {
        &&& commit.updates@.len() == 2
        &&& commit.updates@[0] matches TableUpdate::AddSnapshot { snapshot } && {
            &&& snapshot.snapshot_id == snapshot_id
            &&& snapshot.parent_snapshot_id == self.parent()
            &&& snapshot.sequence_number == plan.sequence_number
            &&& snapshot.timestamp_ms == timestamp_ms
            &&& snapshot.manifest_list@ == manifest_list
            &&& snapshot.summary.operation == plan.operation
            &&& snapshot.summary.additional_properties == self.snapshot_properties
            &&& snapshot.schema_id == Some(plan.metadata.schema_id)
            &&& snapshot.first_row_id == self.row_lineage_start_row_id
            &&& snapshot.added_rows == if self.row_lineage_start_row_id is Some {
                Some(added_rows)
            } else {
                None
            }
        }
        &&& commit.updates@[1] matches TableUpdate::SetSnapshotRef { ref_name, reference } && {
            &&& ref_name@ == MAIN_BRANCH@
            &&& reference == (SnapshotReference {
                snapshot_id,
                retention: SnapshotRetention::Branch {
                    min_snapshots_to_keep: None,
                    max_snapshot_age_ms: None,
                    max_ref_age_ms: None,
                },
            })
        }
        &&& commit.requirements@.len() == 1
        &&& commit.requirements@[0] matches TableRequirement::RefSnapshotIdMatch {
            reference,
            snapshot_id: expected,
        } && reference@ == MAIN_BRANCH@ && expected == self.parent()
    }

    /// The changes that make the new snapshot the table's current one, given where its manifest
    /// list was written. They are made only where the main branch still is at the parent.
    pub fn action_commit(
        self,
        plan: &SnapshotPlan,
        added_rows: i64,
        snapshot_id: i64,
        timestamp_ms: i64,
        manifest_list: String,
    ) -> (commit: ActionCommit)
        ensures
            self.is_made_by(
                *plan,
                added_rows,
                snapshot_id,
                timestamp_ms,
                manifest_list@,
                commit,
            ),
    {
        let parent_snapshot_id: Option<i64> = if self.is_bootstrap {
            None
        } else {
            Some(self.tx.snapshot.snapshot_id)
        };
        let snapshot = Snapshot {
            snapshot_id,
            parent_snapshot_id,
            sequence_number: plan.sequence_number,
            timestamp_ms,
            manifest_list,
            summary: Summary {
                operation: plan.operation,
                additional_properties: self.snapshot_properties,
            },
            schema_id: Some(plan.metadata.schema_id),
            first_row_id: self.row_lineage_start_row_id,
            added_rows: if self.row_lineage_start_row_id.is_some() {
                Some(added_rows)
            } else {
                None
            },
        };
        let mut updates: Vec<TableUpdate> = Vec::new();
        updates.push(TableUpdate::AddSnapshot { snapshot });
        updates.push(
            TableUpdate::SetSnapshotRef {
                ref_name: MAIN_BRANCH.to_owned(),
                reference: SnapshotReference {
                    snapshot_id,
                    retention: SnapshotRetention::Branch {
                        min_snapshots_to_keep: None,
                        max_snapshot_age_ms: None,
                        max_ref_age_ms: None,
                    },
                },
            },
        );
        let mut requirements: Vec<TableRequirement> = Vec::new();
        requirements.push(
            TableRequirement::RefSnapshotIdMatch {
                reference: MAIN_BRANCH.to_owned(),
                snapshot_id: parent_snapshot_id,
            },
        );
        ActionCommit { updates, requirements }
    }
}

proof fn lemma_with_row_ids(files: Seq<ManifestModel>, start: int, i: int)
    requires
        0 <= i < files.len(),
    ensures
        with_row_ids(files, start).len() == files.len(),
        with_row_ids(files, start)[i] == if needs_row_ids(files[i]) {
            ManifestModel {
                first_row_id: Some((start + assigned_rows(files.take(i))) as i64),
                ..files[i]
            }
        } else {
            files[i]
        },
    decreases files.len(),
{
    reveal_with_fuel(with_row_ids, 2);
    if i < files.len() - 1 {
        lemma_with_row_ids(files.drop_last(), start, i);
        assert(files.drop_last().take(i) =~= files.take(i));
    } else {
        if files.len() > 1 {
            lemma_with_row_ids(files.drop_last(), start, 0);
        }
        assert(files.take(i) =~= files.drop_last());
    }
}

/// A list that a commit adds to keeps every manifest of its parent that is kept, in order and
/// changed at most in its first row id, and ends with the new manifest.
pub proof fn law_kept_manifests_stay_in_the_list(
    producer: SnapshotProducer<'_>,
    plan: SnapshotPlan,
    parents: Seq<ManifestModel>,
    snapshot_id: i64,
    path: Seq<char>,
    length: i64,
)
    ensures
        ({
            let list = producer.new_list(plan, parents, snapshot_id, path, length);
            &&& list.len() == parents.len() + 1
            &&& list.last() == producer.new_manifest(plan, parents, snapshot_id, path, length)
            &&& forall|i: int|
                0 <= i < parents.len() ==> {
                    let entry = #[trigger] list[i];
                    &&& entry == (ManifestModel { first_row_id: entry.first_row_id, ..parents[i] })
                    &&& parents[i].first_row_id is Some ==> entry == parents[i]
                }
        }),
{
    let list = producer.new_list(plan, parents, snapshot_id, path, length);
    if let Some(start) = producer.row_lineage_start_row_id {
        if parents.len() > 0 {
            lemma_with_row_ids(parents, start as int, 0);
        }
        assert forall|i: int| 0 <= i < parents.len() implies {
            let entry = #[trigger] list[i];
            &&& entry == (ManifestModel { first_row_id: entry.first_row_id, ..parents[i] })
            &&& parents[i].first_row_id is Some ==> entry == parents[i]
        } by {
            lemma_with_row_ids(parents, start as int, i);
        }
    }
}

proof fn lemma_assigned_rows_grow(files: Seq<ManifestModel>, i: int, j: int)
    requires
        0 <= i <= j <= files.len(),
        forall|k: int| 0 <= k < files.len() ==> rows_of(#[trigger] files[k]) >= 0,
    ensures
        assigned_rows(files.take(i)) <= assigned_rows(files.take(j)),
    decreases j - i,
{
    if i < j {
        lemma_assigned_rows_grow(files, i, j - 1);
        assert(files.take(j).drop_last() =~= files.take(j - 1));
        assert(files.take(j).last() == files[j - 1]);
    }
}

/// No two rows get the same id: the ids that a manifest gets end before those of a later one
/// begin, and the new manifest's begin after all of them.
pub proof fn law_row_ids_do_not_overlap(
    files: Seq<ManifestModel>,
    start: i64,
    i: int,
    j: int,
)
    requires
        row_ids_fit(files, start as int),
        forall|k: int| 0 <= k < files.len() ==> rows_of(#[trigger] files[k]) >= 0,
        0 <= i < j < files.len(),
        needs_row_ids(files[i]),
        needs_row_ids(files[j]),
    ensures
        ({
            let list = with_row_ids(files, start as int);
            &&& list[i].first_row_id is Some
            &&& list[j].first_row_id is Some
            &&& start <= list[i].first_row_id->0
            &&& list[i].first_row_id->0 + rows_of(files[i]) <= list[j].first_row_id->0
            &&& list[j].first_row_id->0 + rows_of(files[j]) <= start + assigned_rows(files)
        }),
{
    lemma_with_row_ids(files, start as int, i);
    lemma_with_row_ids(files, start as int, j);
    assert(is_i64(start + assigned_rows(files.take(i))));
    assert(is_i64(start + assigned_rows(files.take(j))));
    assert(files.take(i + 1).drop_last() =~= files.take(i));
    assert(files.take(i + 1).last() == files[i]);
    assert(files.take(j + 1).drop_last() =~= files.take(j));
    assert(files.take(j + 1).last() == files[j]);
    assert(files.take(0) =~= Seq::<ManifestModel>::empty());
    assert(files.take(files.len() as int) =~= files);
    lemma_assigned_rows_grow(files, 0, i);
    lemma_assigned_rows_grow(files, i + 1, j);
    lemma_assigned_rows_grow(files, j + 1, files.len() as int);
}

/// Overwriting partitions removes exactly their files: an entry of a manifest stays where its
/// partition is not among them, and only there.
pub proof fn law_overwrite_removes_exactly_its_partitions(
    partitions: Seq<Seq<Option<Seq<u8>>>>,
    filter: Seq<Seq<Option<Seq<u8>>>>,
    k: usize,
)
    requires
        partitions.len() <= usize::MAX,
        k < partitions.len(),
    ensures
        retained(partitions, filter).contains(k) <==> !filter.contains(partitions[k as int]),
    decreases partitions.len(),
{
    let before = retained(partitions.drop_last(), filter);
    let after = retained(partitions, filter);
    let last = (partitions.len() - 1) as usize;
    lemma_retained_in_range(partitions.drop_last(), filter);
    if k < last {
        law_overwrite_removes_exactly_its_partitions(partitions.drop_last(), filter, k);
        if before.contains(k) {
            let i = before.index_of(k);
            assert(after[i] == k);
        }
        if after.contains(k) {
            let i = after.index_of(k);
            assert(before[i] == k);
        }
    } else {
        assert(!before.contains(k));
        if !filter.contains(partitions.last()) {
            assert(after[before.len() as int] == k);
        }
    }
}

proof fn lemma_retained_in_range(
    partitions: Seq<Seq<Option<Seq<u8>>>>,
    filter: Seq<Seq<Option<Seq<u8>>>>,
)
    requires
        partitions.len() <= usize::MAX,
    ensures
        forall|i: int|
            0 <= i < retained(partitions, filter).len() ==> (#[trigger] retained(
                partitions,
                filter,
            )[i]) < partitions.len(),
    decreases partitions.len(),
{
    if partitions.len() > 0 {
        lemma_retained_in_range(partitions.drop_last(), filter);
        let before = retained(partitions.drop_last(), filter);
        let after = retained(partitions, filter);
        assert forall|i: int| 0 <= i < after.len() implies (#[trigger] after[i])
            < partitions.len() by {
            if i < before.len() {
                assert(after[i] == before[i]);
            }
        }
    }
}

/// Whether entries of a new list are what stays of a parent's when the files of some partitions are
/// removed; `from` tells, for each of them, the position of the parent's entry that it stands for. An
/// entry has one where it is no data manifest, is empty, or lists a file of another partition. Of a
/// data manifest it counts the files of other partitions: it is the parent's entry where these are
/// all files, else one at the path of the retained ones.
pub open spec fn stand_for(
    kept: Seq<ManifestModel>,
    files: Seq<ManifestModel>,
    loaded: Seq<LoadedManifest>,
    filter: Seq<Seq<Option<Seq<u8>>>>,
    from: Seq<int>,
) -> bool {
    &&& from.len() == kept.len()
    &&& forall|j: int| 0 <= j < kept.len() ==> 0 <= #[trigger] from[j] < files.len()
    &&& forall|j: int, k: int| 0 <= j < k < kept.len() ==> #[trigger] from[j] < #[trigger] from[k]
    &&& forall|i: int|
        0 <= i < files.len() && ((#[trigger] files[i]).content != ManifestContentType::Data
            || loaded[i].partitions@.len() == 0) ==> from.contains(i)
    &&& forall|i: int, f: int|
        0 <= i < files.len() && 0 <= f < loaded[i].partitions@.len() && !filter.contains(
            partition_model(#[trigger] loaded[i].partitions@[f]@),
        ) ==> from.contains(i)
    &&& forall|j: int|
        0 <= j < kept.len() ==> {
            let file = files[from[j]];
            let all = loaded[from[j]].partitions@;
            let entry = #[trigger] kept[j];
            let stays = partition_models(all).filter(
                |p: Seq<Option<Seq<u8>>>| !filter.contains(p),
            );
            if file.content != ManifestContentType::Data || stays.len() == all.len() {
                entry == file
            } else {
                &&& stays.len() > 0
                &&& entry.manifest_path == loaded[from[j]].retained_path@
                &&& entry.manifest_length == loaded[from[j]].retained_length
                &&& entry.existing_files_count == stays.len() as i32
                &&& entry.added_files_count == 0 && entry.deleted_files_count == 0
                &&& entry.content == ManifestContentType::Data
                &&& entry.partition_spec_id == file.partition_spec_id
                &&& entry.sequence_number == file.sequence_number
                &&& entry.min_sequence_number == file.min_sequence_number
                &&& entry.added_snapshot_id == file.added_snapshot_id
                &&& entry.added_rows_count is None && entry.existing_rows_count is None
                &&& entry.deleted_rows_count is None && entry.first_row_id is None
            }
        }
}

proof fn lemma_retained_count(
    partitions: Seq<Seq<Option<Seq<u8>>>>,
    filter: Seq<Seq<Option<Seq<u8>>>>,
)
    ensures
        retained(partitions, filter).len() == partitions.filter(
            |p: Seq<Option<Seq<u8>>>| !filter.contains(p),
        ).len(),
        retained(partitions, filter).len() <= partitions.len(),
        forall|f: int|
            0 <= f < partitions.len() && !filter.contains(#[trigger] partitions[f]) ==> retained(
                partitions,
                filter,
            ).len() > 0,
    decreases partitions.len(),
{
    reveal(Seq::filter);
    if partitions.len() > 0 {
        lemma_retained_count(partitions.drop_last(), filter);
        assert forall|f: int|
            0 <= f < partitions.len() && !filter.contains(#[trigger] partitions[f]) implies retained(
            partitions,
            filter,
        ).len() > 0 by {
            if f < partitions.len() - 1 {
                assert(partitions.drop_last()[f] == partitions[f]);
            }
        }
    }
}

proof fn lemma_stand_for(
    files: Seq<ManifestModel>,
    loaded: Seq<LoadedManifest>,
    filter: Seq<Seq<Option<Seq<u8>>>>,
) -> (from: Seq<int>)
    requires
        loaded.len() >= files.len(),
    ensures
        stand_for(kept_manifests(files, loaded, filter), files, loaded, filter, from),
    decreases files.len(),
{
    if files.len() == 0 {
        Seq::empty()
    } else {
        let n = files.len() - 1;
        let rest = files.drop_last();
        let before = lemma_stand_for(rest, loaded, filter);
        let kept = kept_manifests(rest, loaded, filter);
        let own = kept_manifest(files.last(), loaded[n], filter);
        let all = kept_manifests(files, loaded, filter);
        let partitions = partition_models(loaded[n].partitions@);
        lemma_retained_count(partitions, filter);
        assert(partitions.len() == loaded[n].partitions@.len());
        let from = if own.len() == 0 {
            before
        } else {
            before.push(n)
        };
        assert(all == kept + own);
        assert(own.len() <= 1);
        assert forall|i: int| before.contains(i) implies from.contains(i) by {
            let j = before.index_of(i);
            assert(from[j] == i);
        }
        if own.len() > 0 {
            assert(from[before.len() as int] == n);
        }
        assert forall|i: int|
            0 <= i < files.len() && ((#[trigger] files[i]).content != ManifestContentType::Data
                || loaded[i].partitions@.len() == 0) implies from.contains(i) by {
            if i < n {
                assert(rest[i] == files[i]);
                assert(before.contains(i));
            }
        }
        assert forall|i: int, f: int|
            0 <= i < files.len() && 0 <= f < loaded[i].partitions@.len() && !filter.contains(
                partition_model(#[trigger] loaded[i].partitions@[f]@),
            ) implies from.contains(i) by {
            if i < n {
                assert(before.contains(i));
            } else {
                assert(partitions[f] == partition_model(loaded[n].partitions@[f]@));
            }
        }
        assert forall|j: int| 0 <= j < all.len() implies {
            let file = files[from[j]];
            let every = loaded[from[j]].partitions@;
            let entry = #[trigger] all[j];
            let stays = partition_models(every).filter(
                |p: Seq<Option<Seq<u8>>>| !filter.contains(p),
            );
            if file.content != ManifestContentType::Data || stays.len() == every.len() {
                entry == file
            } else {
                &&& stays.len() > 0
                &&& entry.manifest_path == loaded[from[j]].retained_path@
                &&& entry.manifest_length == loaded[from[j]].retained_length
                &&& entry.existing_files_count == stays.len() as i32
                &&& entry.added_files_count == 0 && entry.deleted_files_count == 0
                &&& entry.content == ManifestContentType::Data
                &&& entry.partition_spec_id == file.partition_spec_id
                &&& entry.sequence_number == file.sequence_number
                &&& entry.min_sequence_number == file.min_sequence_number
                &&& entry.added_snapshot_id == file.added_snapshot_id
                &&& entry.added_rows_count is None && entry.existing_rows_count is None
                &&& entry.deleted_rows_count is None && entry.first_row_id is None
            }
        } by {
            if j < kept.len() {
                assert(all[j] == kept[j]);
                assert(from[j] == before[j]);
                assert(rest[before[j]] == files[before[j]]);
            } else {
                assert(all[j] == own[0]);
                assert(from[j] == n);
            }
        }
        from
    }
}

/// An overwrite of partitions keeps all other files: the new list has an entry for every manifest of
/// the parent with a file that is not in the overwritten partitions, which counts exactly those
/// files, and only a data manifest all of whose files are in them has none. The entries are in the
/// parent's order.
pub proof fn law_other_partitions_stay_in_the_list(
    files: Seq<ManifestModel>,
    loaded: Seq<LoadedManifest>,
    filter: Seq<Seq<Option<Seq<u8>>>>,
)
    requires
        loaded.len() == files.len(),
    ensures
        exists|from: Seq<int>| #[trigger]
            stand_for(kept_manifests(files, loaded, filter), files, loaded, filter, from),
{
    let from = lemma_stand_for(files, loaded, filter);
    assert(stand_for(kept_manifests(files, loaded, filter), files, loaded, filter, from));
}

/// The positions that stay are in increasing order, each once.
pub proof fn law_retained_positions_are_in_order(
    partitions: Seq<Seq<Option<Seq<u8>>>>,
    filter: Seq<Seq<Option<Seq<u8>>>>,
    i: int,
    j: int,
)
    requires
        partitions.len() <= usize::MAX,
        0 <= i < j < retained(partitions, filter).len(),
    ensures
        retained(partitions, filter)[i] < retained(partitions, filter)[j] < partitions.len(),
    decreases partitions.len(),
{
    let rest = partitions.drop_last();
    let before = retained(rest, filter);
    lemma_retained_in_range(rest, filter);
    lemma_retained_in_range(partitions, filter);
    if j < before.len() {
        law_retained_positions_are_in_order(rest, filter, i, j);
    } else {
        assert(before[i] < rest.len());
    }
}

/// What a plan reads of the parent: an append builds on all of it, an overwrite of the whole table on
/// nothing, and an overwrite of partitions again on all of it, to keep the other partitions. The new
/// snapshot's number is one more than the parent's, and the first snapshot's is one.
pub proof fn law_plans_build_on_the_parent(
    producer: SnapshotProducer<'_>,
    overwrite: bool,
    plan: SnapshotPlan,
)
    requires
        producer.is_plan(overwrite, Ok(plan)),
    ensures
        !producer.is_bootstrap && producer.tx.snapshot.manifest_list@.len() > 0 && (!overwrite
            || producer.partition_filter is Some) ==> plan.parent_manifest_list is Some
            && plan.parent_manifest_list->0@ == producer.tx.snapshot.manifest_list@,
        overwrite && producer.partition_filter is None ==> plan.parent_manifest_list is None,
        producer.is_bootstrap ==> plan.parent_manifest_list is None && plan.sequence_number == 1,
        !producer.is_bootstrap ==> plan.sequence_number == producer.tx.snapshot.sequence_number + 1,
        overwrite <==> plan.operation == Operation::Overwrite,
        !overwrite <==> plan.operation == Operation::Append,
        producer.manifest_metadata matches Some(meta) ==> plan.metadata == meta,
{
}

/// The rows of data files add up: those of two lists together are the sum, and a file has as many as
/// it records.
pub proof fn law_data_rows_add_up(a: Seq<DataFile>, b: Seq<DataFile>, file: DataFile)
    requires
        file.record_count <= i64::MAX,
    ensures
        data_rows(a + b) == data_rows(a) + data_rows(b),
        data_rows(seq![file]) == file.record_count,
    decreases b.len(),
{
    reveal_with_fuel(data_rows, 2);
    if b.len() == 0 {
        assert(a + b =~= a);
    } else {
        law_data_rows_add_up(a, b.drop_last(), file);
        assert((a + b).drop_last() =~= a + b.drop_last());
        assert((a + b).last() == b.last());
    }
    assert(seq![file].drop_last() =~= Seq::<DataFile>::empty());
}

/// The new manifest stands for the files that are added, all of them and no others, under the number
/// of the new snapshot.
pub proof fn law_new_manifest_counts_the_added_files(
    producer: SnapshotProducer<'_>,
    plan: SnapshotPlan,
    parents: Seq<ManifestModel>,
    snapshot_id: i64,
    path: Seq<char>,
    length: i64,
)
    requires
        producer.added_data_files@.len() <= i32::MAX,
        is_i64(data_rows(producer.added_data_files@)),
    ensures
        ({
            let entry = producer.new_list(plan, parents, snapshot_id, path, length).last();
            &&& entry.manifest_path == path && entry.manifest_length == length
            &&& entry.content == ManifestContentType::Data
            &&& entry.added_files_count == producer.added_data_files@.len()
            &&& entry.existing_files_count == 0 && entry.deleted_files_count == 0
            &&& entry.added_rows_count is Some
            &&& entry.added_rows_count->0 == data_rows(producer.added_data_files@)
            &&& entry.existing_rows_count == Some(0i64) && entry.deleted_rows_count == Some(0i64)
            &&& entry.added_snapshot_id == snapshot_id
            &&& entry.sequence_number == plan.sequence_number
            &&& entry.min_sequence_number == plan.sequence_number
            &&& entry.partition_spec_id == plan.metadata.partition_spec_id
        }),
{
}

proof fn lemma_rows_between(files: Seq<ManifestModel>, i: int, j: int)
    requires
        0 <= i <= j <= files.len(),
        forall|k: int| i <= k < j ==> !needs_row_ids(#[trigger] files[k]),
    ensures
        assigned_rows(files.take(j)) == assigned_rows(files.take(i)),
    decreases j - i,
{
    if i < j {
        lemma_rows_between(files, i, j - 1);
        assert(files.take(j).drop_last() =~= files.take(j - 1));
        assert(files.take(j).last() == files[j - 1]);
    }
}

/// Row ids leave no gap: the first manifest that gets some begins at the first id, each other one
/// where the one before it ends, which has as many as it has added and existing rows, and the new
/// manifest begins where the last of them ends. The snapshot counts all rows that got an id.
pub proof fn law_row_ids_leave_no_gap(
    producer: SnapshotProducer<'_>,
    plan: SnapshotPlan,
    parents: Seq<ManifestModel>,
    snapshot_id: i64,
    path: Seq<char>,
    length: i64,
    start: i64,
    i: int,
    j: int,
)
    requires
        producer.row_lineage_start_row_id == Some(start),
        producer.rows_fit(parents),
        -1 <= i < j <= parents.len(),
        i >= 0 ==> parents[i].content == ManifestContentType::Data && parents[i].first_row_id
            is None,
        j < parents.len() ==> parents[j].content == ManifestContentType::Data
            && parents[j].first_row_id is None,
        forall|k: int|
            i < k < j ==> (#[trigger] parents[k]).content != ManifestContentType::Data
                || parents[k].first_row_id is Some,
    ensures
        ({
            let list = producer.new_list(plan, parents, snapshot_id, path, length);
            let first = if i < 0 {
                start as int
            } else {
                let added = match parents[i].added_rows_count {
                    Some(n) => n as int,
                    None => 0,
                };
                let existing = match parents[i].existing_rows_count {
                    Some(n) => n as int,
                    None => 0,
                };
                list[i].first_row_id->0 + added + existing
            };
            &&& list[j].first_row_id is Some
            &&& list[j].first_row_id->0 == first
            &&& j == parents.len() ==> producer.new_rows(parents) == first + data_rows(
                producer.added_data_files@,
            ) - start
        }),
{
    let list = producer.new_list(plan, parents, snapshot_id, path, length);
    let n = parents.len() as int;
    assert(parents.take(n) =~= parents);
    assert(parents.take(0) =~= Seq::<ManifestModel>::empty());
    lemma_rows_between(parents, i + 1, j);
    assert(is_i64(start + assigned_rows(parents.take(j))));
    if i >= 0 {
        assert(is_i64(start + assigned_rows(parents.take(i))));
        lemma_with_row_ids(parents, start as int, i);
        assert(parents.take(i + 1).drop_last() =~= parents.take(i));
        assert(parents.take(i + 1).last() == parents[i]);
        assert(list[i] == with_row_ids(parents, start as int)[i]);
    }
    if parents.len() > 0 {
        lemma_with_row_ids(parents, start as int, 0);
    }
    if j < n {
        lemma_with_row_ids(parents, start as int, j);
        assert(list[j] == with_row_ids(parents, start as int)[j]);
    }
}

/// A commit moves the main branch to its snapshot, and only where the branch stands at the snapshot
/// on which it builds; the first snapshot of a table builds on none.
pub proof fn law_commits_build_on_what_they_require(
    producer: SnapshotProducer<'_>,
    plan: SnapshotPlan,
    added_rows: i64,
    snapshot_id: i64,
    timestamp_ms: i64,
    manifest_list: Seq<char>,
    commit: ActionCommit,
)
    requires
        producer.is_made_by(plan, added_rows, snapshot_id, timestamp_ms, manifest_list, commit),
    ensures
        commit.updates@.len() == 2,
        commit.updates@[0] is AddSnapshot,
        commit.updates@[1] is SetSnapshotRef,
        ({
            let snapshot = commit.updates@[0]->snapshot;
            let base = if producer.is_bootstrap {
                None
            } else {
                Some(producer.tx.snapshot.snapshot_id)
            };
            &&& snapshot.parent_snapshot_id == base
            &&& snapshot.snapshot_id == snapshot_id
            &&& snapshot.sequence_number == plan.sequence_number
            &&& snapshot.timestamp_ms == timestamp_ms
            &&& snapshot.manifest_list@ == manifest_list
            &&& snapshot.summary.operation == plan.operation
            &&& snapshot.summary.additional_properties == producer.snapshot_properties
            &&& snapshot.schema_id == Some(plan.metadata.schema_id)
            &&& snapshot.first_row_id == producer.row_lineage_start_row_id
            &&& snapshot.added_rows is Some <==> producer.row_lineage_start_row_id is Some
            &&& snapshot.added_rows is Some ==> snapshot.added_rows == Some(added_rows)
            &&& commit.updates@[1]->ref_name@ == "main"@
            &&& commit.updates@[1]->SetSnapshotRef_reference.snapshot_id == snapshot.snapshot_id
            &&& commit.requirements@.len() == 1
            &&& commit.requirements@[0] matches TableRequirement::RefSnapshotIdMatch {
                reference,
                snapshot_id: expected,
            } && reference@ == "main"@ && expected == snapshot.parent_snapshot_id
        }),
{
}

} // verus!
