//! What the commit logic reads of an Iceberg table's metadata.

use vstd::prelude::*;

use crate::assoc::AssocMap;
use crate::bytes;

verus! {

/// The branch that readers follow.
pub const MAIN_BRANCH: &'static str = "main";

/// A value in its serialised form: two values are equal exactly where the forms are.
#[derive(Debug)]
pub struct Literal {
    pub bytes: Vec<u8>,
}

/// The values of a partition.
pub open spec fn partition_model(p: Seq<Option<Literal>>) -> Seq<Option<Seq<u8>>> {
    p.map_values(
        |v: Option<Literal>|
            match v {
                Some(l) => Some(l.bytes@),
                None => None::<Seq<u8>>,
            },
    )
}

fn same_bytes(a: &[u8], b: &[u8]) -> (same: bool)
    ensures
        same == (a@ == b@),
{
    if a.len() != b.len() {
        return false;
    }
    let mut i: usize = 0;
    while i < a.len()
        invariant
            i <= a@.len() == b@.len(),
            forall|k: int| 0 <= k < i ==> a@[k] == b@[k],
        decreases a@.len() - i,
    {
        if a[i] != b[i] {
            return false;
        }
        i = i + 1;
    }
    assert(a@ =~= b@);
    true
}

/// Whether two partitions have the same values.
pub fn same_partition(a: &[Option<Literal>], b: &[Option<Literal>]) -> (same: bool)
    ensures
        same == (partition_model(a@) == partition_model(b@)),
{
    let ghost ma = partition_model(a@);
    let ghost mb = partition_model(b@);
    assert(ma.len() == a@.len() && mb.len() == b@.len());
    if a.len() != b.len() {
        return false;
    }
    let mut i: usize = 0;
    while i < a.len()
        invariant
            i <= a@.len() == b@.len(),
            ma == partition_model(a@),
            mb == partition_model(b@),
            forall|k: int| 0 <= k < i ==> ma[k] == mb[k],
        decreases a@.len() - i,
    {
        let same = match (&a[i], &b[i]) {
            (Some(x), Some(y)) => same_bytes(x.bytes.as_slice(), y.bytes.as_slice()),
            (None, None) => true,
            _ => false,
        };
        if !same {
            assert(ma[i as int] != mb[i as int]);
            return false;
        }
        i = i + 1;
    }
    assert(ma =~= mb);
    true
}

/// A copy of the values of a partition.
pub fn copy_partition(partition: &[Option<Literal>]) -> (copy: Vec<Option<Literal>>)
    ensures
        partition_model(copy@) == partition_model(partition@),
{
    let ghost models = partition_model(partition@);
    let mut copy: Vec<Option<Literal>> = Vec::new();
    let mut i: usize = 0;
    assert(partition_model(copy@) =~= models.take(0));
    while i < partition.len()
        invariant
            i <= partition@.len(),
            models == partition_model(partition@),
            partition_model(copy@) == models.take(i as int),
        decreases partition@.len() - i,
    {
        let ghost before = copy@;
        match &partition[i] {
            Some(value) => copy.push(Some(Literal { bytes: bytes::copy(value.bytes.as_slice()) })),
            None => copy.push(None),
        }
        assert(partition_model(copy@) =~= partition_model(before).push(models[i as int]));
        assert(models.take(i + 1) =~= models.take(i as int).push(models[i as int]));
        i = i + 1;
    }
    assert(models.take(i as int) =~= models);
    copy
}

/// The version of the table format.
#[derive(Debug, Clone, Copy, PartialEq, Eq, Structural)]
pub enum FormatVersion {
    V1,
    V2,
    V3,
}

impl FormatVersion {
    /// The number of a version.
    pub open spec fn number(self) -> int {
        match self {
            FormatVersion::V1 => 1,
            FormatVersion::V2 => 2,
            FormatVersion::V3 => 3,
        }
    }

    /// The later of two versions.
    pub fn max(self, other: FormatVersion) -> (later: FormatVersion)
        ensures
            later == if self.number() >= other.number() {
                self
            } else {
                other
            },
    {
        match (self, other) {
            (FormatVersion::V3, _) => self,
            (_, FormatVersion::V3) => other,
            (FormatVersion::V2, _) => self,
            (_, FormatVersion::V2) => other,
            _ => self,
        }
    }
}

/// A data file: what the commit logic reads of it.
#[derive(Debug)]
pub struct DataFile {
    pub partition: Vec<Option<Literal>>,
    pub record_count: u64,
}

/// What a manifest lists.
#[derive(Debug, Clone, Copy, PartialEq, Eq, Structural)]
pub enum ManifestContentType {
    Data,
    Deletes,
}

/// An entry of a manifest list.
#[derive(Debug)]
pub struct ManifestFile {
    pub manifest_path: String,
    pub manifest_length: i64,
    pub partition_spec_id: i32,
    pub content: ManifestContentType,
    pub sequence_number: i64,
    pub min_sequence_number: i64,
    pub added_snapshot_id: i64,
    pub added_files_count: i32,
    pub existing_files_count: i32,
    pub deleted_files_count: i32,
    pub added_rows_count: Option<i64>,
    pub existing_rows_count: Option<i64>,
    pub deleted_rows_count: Option<i64>,
    pub first_row_id: Option<i64>,
}

/// An entry of a manifest list.
#[verifier::ext_equal]
pub struct ManifestModel {
    pub manifest_path: Seq<char>,
    pub manifest_length: i64,
    pub partition_spec_id: i32,
    pub content: ManifestContentType,
    pub sequence_number: i64,
    pub min_sequence_number: i64,
    pub added_snapshot_id: i64,
    pub added_files_count: i32,
    pub existing_files_count: i32,
    pub deleted_files_count: i32,
    pub added_rows_count: Option<i64>,
    pub existing_rows_count: Option<i64>,
    pub deleted_rows_count: Option<i64>,
    pub first_row_id: Option<i64>,
}

impl View for ManifestFile {
    type V = ManifestModel;

    open spec fn view(&self) -> ManifestModel {
        ManifestModel {
            manifest_path: self.manifest_path@,
            manifest_length: self.manifest_length,
            partition_spec_id: self.partition_spec_id,
            content: self.content,
            sequence_number: self.sequence_number,
            min_sequence_number: self.min_sequence_number,
            added_snapshot_id: self.added_snapshot_id,
            added_files_count: self.added_files_count,
            existing_files_count: self.existing_files_count,
            deleted_files_count: self.deleted_files_count,
            added_rows_count: self.added_rows_count,
            existing_rows_count: self.existing_rows_count,
            deleted_rows_count: self.deleted_rows_count,
            first_row_id: self.first_row_id,
        }
    }
}

/// The entries of a manifest list.
pub open spec fn manifest_models(files: Seq<ManifestFile>) -> Seq<ManifestModel> {
    files.map_values(|f: ManifestFile| f@)
}

/// What a snapshot does to the table.
#[derive(Debug, Clone, Copy, PartialEq, Eq, Structural)]
pub enum Operation {
    Append,
    Replace,
    Overwrite,
    OverwritePartitions,
    Delete,
}

/// What a snapshot records of itself.
#[derive(Debug)]
pub struct Summary {
    pub operation: Operation,
    pub additional_properties: AssocMap<String, String>,
}

/// A state of the table.
#[derive(Debug)]
pub struct Snapshot {
    pub snapshot_id: i64,
    pub parent_snapshot_id: Option<i64>,
    pub sequence_number: i64,
    pub timestamp_ms: i64,
    pub manifest_list: String,
    pub summary: Summary,
    pub schema_id: Option<i32>,
    pub first_row_id: Option<i64>,
    pub added_rows: Option<i64>,
}

/// How long a reference keeps its snapshots.
#[derive(Debug, Clone, Copy, PartialEq, Eq, Structural)]
pub enum SnapshotRetention {
    Branch {
        min_snapshots_to_keep: Option<i32>,
        max_snapshot_age_ms: Option<i64>,
        max_ref_age_ms: Option<i64>,
    },
    Tag { max_ref_age_ms: Option<i64> },
}

/// A named reference to a snapshot.
#[derive(Debug, Clone, Copy, PartialEq, Eq, Structural)]
pub struct SnapshotReference {
    pub snapshot_id: i64,
    pub retention: SnapshotRetention,
}

/// A change to a table.
#[derive(Debug)]
pub enum TableUpdate {
    AddSnapshot { snapshot: Snapshot },
    SetSnapshotRef { ref_name: String, reference: SnapshotReference },
    Other,
}

/// What must hold of a table for a change to be made.
#[derive(Debug)]
pub enum TableRequirement {
    NotExist,
    LastAssignedFieldIdMatch { last_assigned_field_id: i32 },
    CurrentSchemaIdMatch { current_schema_id: i32 },
    RefSnapshotIdMatch { reference: String, snapshot_id: Option<i64> },
    Other { description: String },
}

/// Changes to a table and what must hold of it for them to be made.
#[derive(Debug)]
pub struct ActionCommit {
    pub updates: Vec<TableUpdate>,
    pub requirements: Vec<TableRequirement>,
}

/// A schema: what the commit logic reads of it. `format_version` is the earliest version of the
/// table format that has its types.
#[derive(Debug, Clone, Copy, PartialEq, Eq, Structural)]
pub struct IcebergSchema {
    pub schema_id: i32,
    pub highest_field_id: i32,
    pub format_version: FormatVersion,
}

/// A partition spec: what the commit logic reads of it.
#[derive(Debug, Clone, Copy, PartialEq, Eq, Structural)]
pub struct PartitionSpec {
    pub spec_id: i32,
    pub highest_field_id: Option<i32>,
}

/// When a snapshot became current.
#[derive(Debug, Clone, Copy, PartialEq, Eq, Structural)]
pub struct SnapshotLog {
    pub timestamp_ms: i64,
    pub snapshot_id: i64,
}

/// Until when a metadata file was current.
#[derive(Debug)]
pub struct MetadataLog {
    pub timestamp_ms: i64,
    pub metadata_file: String,
}

/// The metadata of a table.
#[derive(Debug)]
pub struct TableMetadata {
    pub format_version: FormatVersion,
    pub last_column_id: i32,
    pub schemas: Vec<IcebergSchema>,
    pub current_schema_id: i32,
    pub partition_specs: Vec<PartitionSpec>,
    pub default_spec_id: i32,
    pub last_partition_id: i32,
    pub last_sequence_number: i64,
    pub last_updated_ms: i64,
    pub snapshots: Vec<Snapshot>,
    pub current_snapshot_id: Option<i64>,
    pub snapshot_log: Vec<SnapshotLog>,
    pub metadata_log: Vec<MetadataLog>,
    pub refs: AssocMap<String, SnapshotReference>,
}

/// Something that is found by its id.
pub trait Identified: Sized {
    /// The type of the id.
    type Id;

    /// The id.
    spec fn ident(&self) -> Self::Id;

    /// Whether it has an id.
    fn has_id(&self, id: &Self::Id) -> (has: bool)
        ensures
            has == (self.ident() == *id),
    ;
}

impl Identified for IcebergSchema {
    type Id = i32;

    open spec fn ident(&self) -> i32 {
        self.schema_id
    }

    fn has_id(&self, id: &i32) -> (has: bool) {
        self.schema_id == *id
    }
}

impl Identified for PartitionSpec {
    type Id = i32;

    open spec fn ident(&self) -> i32 {
        self.spec_id
    }

    fn has_id(&self, id: &i32) -> (has: bool) {
        self.spec_id == *id
    }
}

impl Identified for Snapshot {
    type Id = i64;

    open spec fn ident(&self) -> i64 {
        self.snapshot_id
    }

    fn has_id(&self, id: &i64) -> (has: bool) {
        self.snapshot_id == *id
    }
}

/// The position of the first item with an id; -1 where there is none.
pub open spec fn position<T: Identified>(items: Seq<T>, id: T::Id) -> int
    decreases items.len(),
{
    if items.len() == 0 {
        -1
    } else {
        let before = position(items.drop_last(), id);
        if before >= 0 {
            before
        } else if items.last().ident() == id {
            items.len() - 1
        } else {
            -1
        }
    }
}

/// The first item with an id.
pub open spec fn with_id<T: Identified>(items: Seq<T>, id: T::Id) -> Option<T> {
    if position(items, id) >= 0 {
        Some(items[position(items, id)])
    } else {
        None
    }
}

/// The position of the first item with an id.
pub fn find<T: Identified>(items: &[T], id: &T::Id) -> (found: Option<usize>)
    ensures
        position(items@, *id) == match found {
            Some(i) => i as int,
            None => -1,
        },
        found matches Some(i) ==> i < items@.len() && items@[i as int].ident() == *id,
{
    let mut found: Option<usize> = None;
    let mut i: usize = 0;
    assert(items@.take(0) =~= Seq::<T>::empty());
    while i < items.len()
        invariant
            i <= items@.len(),
            position(items@.take(i as int), *id) == match found {
                Some(k) => k as int,
                None => -1,
            },
            found matches Some(k) ==> k < i && items@[k as int].ident() == *id,
        decreases items@.len() - i,
    {
        assert(items@.take(i + 1).drop_last() =~= items@.take(i as int));
        assert(items@.take(i + 1).last() == items@[i as int]);
        if found.is_none() && items[i].has_id(id) {
            found = Some(i);
        }
        i = i + 1;
    }
    assert(items@.take(i as int) =~= items@);
    found
}

/// The metadata of a table.
#[verifier::ext_equal]
pub struct MetadataModel {
    pub format_version: FormatVersion,
    pub last_column_id: i32,
    pub schemas: Seq<IcebergSchema>,
    pub current_schema_id: i32,
    pub partition_specs: Seq<PartitionSpec>,
    pub default_spec_id: i32,
    pub last_partition_id: i32,
    pub last_sequence_number: i64,
    pub last_updated_ms: i64,
    pub snapshots: Seq<Snapshot>,
    pub current_snapshot_id: Option<i64>,
    pub snapshot_log: Seq<SnapshotLog>,
    pub metadata_log: Seq<(i64, Seq<char>)>,
    pub refs: Map<Seq<char>, SnapshotReference>,
}

impl MetadataModel {
    /// The current snapshot.
    pub open spec fn current(self) -> Option<Snapshot> {
        match self.current_snapshot_id {
            Some(id) => with_id(self.snapshots, id),
            None => None,
        }
    }

    /// The current schema.
    pub open spec fn schema(self) -> Option<IcebergSchema> {
        with_id(self.schemas, self.current_schema_id)
    }

    /// The default partition spec.
    pub open spec fn default_spec(self) -> Option<PartitionSpec> {
        with_id(self.partition_specs, self.default_spec_id)
    }
}

impl View for TableMetadata {
    type V = MetadataModel;

    open spec fn view(&self) -> MetadataModel {
        MetadataModel {
            format_version: self.format_version,
            last_column_id: self.last_column_id,
            schemas: self.schemas@,
            current_schema_id: self.current_schema_id,
            partition_specs: self.partition_specs@,
            default_spec_id: self.default_spec_id,
            last_partition_id: self.last_partition_id,
            last_sequence_number: self.last_sequence_number,
            last_updated_ms: self.last_updated_ms,
            snapshots: self.snapshots@,
            current_snapshot_id: self.current_snapshot_id,
            snapshot_log: self.snapshot_log@,
            metadata_log: self.metadata_log@.map_values(
                |m: MetadataLog| (m.timestamp_ms, m.metadata_file@),
            ),
            refs: self.refs@,
        }
    }
}

impl TableMetadata {
    /// The current snapshot.
    pub fn current_snapshot(&self) -> (snapshot: Option<&Snapshot>)
        ensures
            match snapshot {
                Some(s) => self@.current() == Some(*s),
                None => self@.current() is None,
            },
    {
        match self.current_snapshot_id {
            Some(id) => match find(self.snapshots.as_slice(), &id) {
                Some(i) => Some(&self.snapshots[i]),
                None => None,
            },
            None => None,
        }
    }

    /// The current schema.
    pub fn current_schema(&self) -> (schema: Option<IcebergSchema>)
        ensures
            schema == self@.schema(),
    {
        match find(self.schemas.as_slice(), &self.current_schema_id) {
            Some(i) => Some(self.schemas[i]),
            None => None,
        }
    }

    /// The default partition spec.
    pub fn default_partition_spec(&self) -> (partition_spec: Option<PartitionSpec>)
        ensures
            partition_spec == self@.default_spec(),
    {
        match find(self.partition_specs.as_slice(), &self.default_spec_id) {
            Some(i) => Some(self.partition_specs[i]),
            None => None,
        }
    }
}

/// What is found by an id is the first item that has it, and there is none exactly where no item has
/// it.
pub proof fn law_first_with_an_id_is_found<T: Identified>(items: Seq<T>, id: T::Id)
    ensures
        match with_id(items, id) {
            Some(item) => exists|i: int|
                0 <= i < items.len() && #[trigger] items[i] == item && item.ident() == id
                    && position(items, id) == i && forall|j: int|
                    0 <= j < i ==> (#[trigger] items[j]).ident() != id,
            None => forall|j: int| 0 <= j < items.len() ==> (#[trigger] items[j]).ident() != id,
        },
        -1 <= position(items, id) < items.len(),
    decreases items.len(),
{
    if items.len() > 0 {
        let rest = items.drop_last();
        law_first_with_an_id_is_found(rest, id);
        let i = position(items, id);
        if position(rest, id) >= 0 {
            assert(rest[i] == items[i]);
            assert forall|j: int| 0 <= j < i implies (#[trigger] items[j]).ident() != id by {
                assert(rest[j] == items[j]);
            }
        } else {
            assert forall|j: int| 0 <= j < rest.len() implies (#[trigger] items[j]).ident() != id by {
                assert(rest[j] == items[j]);
            }
            assert(items[items.len() - 1] == items.last());
        }
    }
}

} // verus!
