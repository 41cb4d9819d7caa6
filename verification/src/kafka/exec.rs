//! The Kafka source operator: its schema, its parameters and the checks on them.

use datafusion::arrow::error::ArrowError;
use vstd::prelude::*;

use crate::checkpoint::{
    checkpoint_location, is_location_error, CheckpointError, CheckpointStore, LocationModel,
};
use crate::kafka::columns::{column_at, ColumnModel, RecordModel, COLUMN_COUNT};
use crate::kafka::options::{optional_text, KafkaReadOptions};
use crate::kafka::source::{
    is_subscription, non_empty_trimmed, parse_topics, read_mode, subscription, ReadMode,
    Subscription,
};
use crate::record_batch;
use crate::record_batch::{
    batch_columns, batch_fields, batch_rows, column_names, column_types, columns_fit,
    has_exact_types, with_field, Batch,
};
use crate::schema;
use crate::schema::{fields_model, is_index_of, names, projected, Field, FieldModel};
use crate::text;
use crate::text::{debug_text, decimal, split_on, texts};

verus! {

/// The type of a column of the Kafka source.
#[derive(Debug, Clone, Copy, PartialEq, Eq, Structural)]
pub enum KafkaType {
    Binary,
    Utf8,
    Int32,
    Int64,
    TimestampMillisecond,
    /// The structure that the record value is parsed into.
    ParsedValue,
}

/// A column of the Kafka source.
pub open spec fn column(name: Seq<char>, data_type: KafkaType, nullable: bool) -> FieldModel<
    KafkaType,
> {
    FieldModel { name, data_type, nullable }
}

/// The columns of the Kafka source.
pub open spec fn kafka_fields() -> Seq<FieldModel<KafkaType>> {
    seq![
        column("key"@, KafkaType::Binary, true),
        column("value"@, KafkaType::Binary, true),
        column("topic"@, KafkaType::Utf8, false),
        column("partition"@, KafkaType::Int32, false),
        column("offset"@, KafkaType::Int64, false),
        column("timestamp"@, KafkaType::TimestampMillisecond, false),
        column("timestampType"@, KafkaType::Int32, false),
    ]
}

/// The columns of the Kafka source.
pub fn kafka_data_schema() -> (fields: Vec<Field<KafkaType>>)
    ensures
        fields_model(fields@) == kafka_fields(),
{
    let mut fields: Vec<Field<KafkaType>> = Vec::new();
    fields.push(Field::new("key", KafkaType::Binary, true));
    fields.push(Field::new("value", KafkaType::Binary, true));
    fields.push(Field::new("topic", KafkaType::Utf8, false));
    fields.push(Field::new("partition", KafkaType::Int32, false));
    fields.push(Field::new("offset", KafkaType::Int64, false));
    fields.push(Field::new("timestamp", KafkaType::TimestampMillisecond, false));
    fields.push(Field::new("timestampType", KafkaType::Int32, false));
    assert(fields_model(fields@) =~= kafka_fields());
    fields
}

/// A member of the parsed value.
#[derive(Debug, Clone)]
pub struct ParsedField {
    pub name: String,
    /// The type in words.
    pub data_type: String,
    pub nullable: bool,
}

/// How times are written in the record value, where it is said.
#[derive(Debug, Clone)]
pub struct FromJsonOptions {
    pub timestamp_format: Option<String>,
    pub date_format: Option<String>,
}

/// How the record value is parsed inside the source.
#[derive(Debug, Clone)]
pub struct ValueParseSpec {
    /// The name of the column with the parsed value.
    pub output_field: String,
    /// The members of the parsed value.
    pub fields: Vec<ParsedField>,
    pub options: FromJsonOptions,
}

/// The columns with the one at `index` replaced by the parsed value.
pub open spec fn with_parsed_value(
    fields: Seq<FieldModel<KafkaType>>,
    index: int,
    output_field: Seq<char>,
) -> Seq<FieldModel<KafkaType>> {
    fields.update(index, column(output_field, KafkaType::ParsedValue, true))
}

/// Why a batch does not get its parsed values.
#[derive(Debug)]
pub enum FuseError {
    MissingValue,
    ValueNotBinary,
    /// There are not as many parsed values as rows.
    RowCount,
    /// A column does not fit its field.
    Columns(ArrowError),
}

/// What keeps a batch from getting parsed values, but for columns that do not fit.
pub open spec fn is_fuse_error(
    e: FuseError,
    fields: Seq<(Seq<char>, Seq<char>, bool)>,
    same_rows: bool,
) -> bool {
    match e {
        FuseError::MissingValue => !column_names(fields).contains("value"@),
        FuseError::ValueNotBinary => exists|at: usize| #[trigger]
            is_index_of(column_names(fields), "value"@, Some(at)) && fields[at as int].1
                != "Binary"@,
        FuseError::RowCount => !same_rows && exists|at: usize| #[trigger]
            is_index_of(column_names(fields), "value"@, Some(at)) && fields[at as int].1
                == "Binary"@,
        FuseError::Columns(_) => false,
    }
}

impl ValueParseSpec {
    /// The batch with its values parsed, in their place: the first column of `parsed` stands for
    /// them, under the name of the output field.
    pub fn fuse(&self, batch: &Batch, parsed: &Batch) -> (result: Result<Batch, FuseError>)
        requires
            batch_fields(*parsed).len() > 0,
        ensures
            ({
                let names = column_names(batch_fields(*batch));
                let name = self.output_field@;
                let words = batch_fields(*parsed)[0].1;
                let same_rows = batch_rows(*parsed) == batch_rows(*batch);
                match result {
                    Ok(fused) => exists|at: usize| #[trigger]
                        is_index_of(names, "value"@, Some(at)) && {
                            let fields = with_field(batch_fields(*batch), at as int, name, words);
                            &&& same_rows && batch_fields(*batch)[at as int].1 == "Binary"@
                            &&& batch_rows(fused) == batch_rows(*batch)
                            &&& batch_fields(fused) == fields
                            &&& batch_columns(fused) == batch_columns(*batch).update(
                                at as int,
                                batch_columns(*parsed)[0],
                            )
                            &&& columns_fit(fields, column_types(fields), batch_columns(fused))
                        },
                    Err(FuseError::Columns(_)) => exists|at: usize| #[trigger]
                        is_index_of(names, "value"@, Some(at)) && {
                            let fields = with_field(batch_fields(*batch), at as int, name, words);
                            &&& same_rows && batch_fields(*batch)[at as int].1 == "Binary"@
                            &&& !has_exact_types(*batch) || !columns_fit(
                                fields,
                                column_types(fields),
                                batch_columns(*batch).update(at as int, batch_columns(*parsed)[0]),
                            )
                        },
                    Err(e) => is_fuse_error(e, batch_fields(*batch), same_rows),
                }
            }),
    {
        let schema = record_batch::batch_schema(batch);
        assert(column_names(batch_fields(*batch)).len() == batch_fields(*batch).len());
        let at = match record_batch::find_column(&schema, "value") {
            Some(at) => at,
            None => {
                return Err(FuseError::MissingValue);
            },
        };
        assert(is_index_of(column_names(batch_fields(*batch)), "value"@, Some(at)));
        if record_batch::binary_nulls(batch, at).is_none() {
            return Err(FuseError::ValueNotBinary);
        }
        if record_batch::row_count(parsed) != record_batch::row_count(batch) {
            return Err(FuseError::RowCount);
        }
        match record_batch::replace_column(batch, at, self.output_field.as_str(), parsed) {
            Ok(fused) => Ok(fused),
            Err(e) => Err(FuseError::Columns(e)),
        }
    }

    /// The columns with `value` replaced, in its place, by the parsed value. Nothing where there
    /// is no column `value`.
    pub fn output_data_schema(&self, source: &[Field<KafkaType>]) -> (fields: Option<
        Vec<Field<KafkaType>>,
    >)
        ensures
            match fields {
                Some(out) => exists|i: usize| #[trigger]
                    is_index_of(names(fields_model(source@)), "value"@, Some(i)) && fields_model(
                        out@,
                    ) == with_parsed_value(fields_model(source@), i as int, self.output_field@),
                None => !names(fields_model(source@)).contains("value"@),
            },
    {
        let index: usize = match schema::index_of(source, "value") {
            Some(index) => index,
            None => {
                return None;
            },
        };
        let mut out: Vec<Field<KafkaType>> = Vec::new();
        let mut i: usize = 0;
        while i < source.len()
            invariant
                i <= source@.len(),
                index < source@.len(),
                out@.len() == i,
                forall|k: int|
                    0 <= k < i ==> (#[trigger] out@[k])@ == with_parsed_value(
                        fields_model(source@),
                        index as int,
                        self.output_field@,
                    )[k],
            decreases source@.len() - i,
        {
            if i == index {
                out.push(
                    Field::new(self.output_field.as_str(), KafkaType::ParsedValue, true),
                );
            } else {
                out.push(source[i].copy());
            }
            i = i + 1;
        }
        assert(fields_model(out@) =~= with_parsed_value(
            fields_model(source@),
            index as int,
            self.output_field@,
        ));
        Some(out)
    }
}

/// Why a Kafka source cannot be planned or executed.
#[derive(Debug)]
pub enum KafkaSourceError {
    /// A projected column does not exist.
    ColumnOutOfRange { index: usize },
    /// The value is to be parsed but is not among the projected columns.
    ValueNotProjected { columns: Vec<String> },
    /// The execution instance does not exist.
    PartitionOutOfRange { partition: usize, parallelism: usize },
    /// The operator has no children.
    UnexpectedChildren,
    /// A realtime read needs a checkpoint.
    CheckpointRequired,
    /// The checkpoint of a realtime read cannot be used.
    CheckpointRefused { error: CheckpointError },
    /// A bounded or a realtime read needs explicit topics.
    TopicsRequired { realtime: bool },
    /// A plain read needs topics or a pattern.
    SubscriptionRequired,
}

/// The quoted names, separated by commas.
pub open spec fn quoted_names(columns: Seq<Seq<char>>) -> Seq<char>
    decreases columns.len(),
{
    if columns.len() == 0 {
        Seq::empty()
    } else if columns.len() == 1 {
        debug_text(columns[0])
    } else {
        quoted_names(columns.drop_last()) + ", "@ + debug_text(columns.last())
    }
}

impl KafkaSourceError {
    /// The message for the user, but for an error of the schema or of the checkpoint, which has a
    /// message of its own.
    pub open spec fn text(self) -> Option<Seq<char>> {
        match self {
            KafkaSourceError::ColumnOutOfRange { .. } => None,
            KafkaSourceError::ValueNotProjected { columns } => Some(
                "VAJ-T7 fusion requires `value` in the source projection, got ["@ + quoted_names(
                    texts(columns@),
                ) + "]"@,
            ),
            KafkaSourceError::PartitionOutOfRange { partition, parallelism } => Some(
                "KafkaSourceExec partition "@ + decimal(partition as nat)
                    + " out of range (parallelism "@ + decimal(parallelism as nat) + ")"@,
            ),
            KafkaSourceError::UnexpectedChildren => Some(
                "KafkaSourceExec cannot have children"@,
            ),
            KafkaSourceError::CheckpointRequired => Some(
                "realtime (continuous) exactly-once Kafka read requires checkpointLocation"@,
            ),
            KafkaSourceError::CheckpointRefused { .. } => None,
            KafkaSourceError::TopicsRequired { realtime } => Some(
                if realtime {
                    "realtime/exactly-once Kafka read requires `subscribe` (explicit topics)"@
                } else {
                    "bounded/exactly-once Kafka read requires `subscribe` (explicit topics)"@
                },
            ),
            KafkaSourceError::SubscriptionRequired => Some(
                "subscribe or subscribePattern is required for Kafka source"@,
            ),
        }
    }

    /// The message for the user, but for an error of the schema or of the checkpoint.
    pub fn message(&self) -> (out: Option<String>)
        ensures
            match out {
                Some(out) => self.text() == Some(out@),
                None => self.text() is None,
            },
    {
        match self {
            KafkaSourceError::ColumnOutOfRange { .. } => None,
            KafkaSourceError::ValueNotProjected { columns } => {
                let mut out =
                    "VAJ-T7 fusion requires `value` in the source projection, got [".to_owned();
                push_quoted_names(&mut out, columns);
                out.append("]");
                Some(out)
            },
            KafkaSourceError::PartitionOutOfRange { partition, parallelism } => {
                let mut out = "KafkaSourceExec partition ".to_owned();
                text::push_decimal(&mut out, *partition as u64);
                out.append(" out of range (parallelism ");
                text::push_decimal(&mut out, *parallelism as u64);
                out.append(")");
                Some(out)
            },
            KafkaSourceError::UnexpectedChildren => Some(
                "KafkaSourceExec cannot have children".to_owned(),
            ),
            KafkaSourceError::CheckpointRequired => Some(
                "realtime (continuous) exactly-once Kafka read requires checkpointLocation".to_owned(),
            ),
            KafkaSourceError::CheckpointRefused { .. } => None,
            KafkaSourceError::TopicsRequired { realtime } => {
                if *realtime {
                    Some(
                        "realtime/exactly-once Kafka read requires `subscribe` (explicit topics)".to_owned(),
                    )
                } else {
                    Some(
                        "bounded/exactly-once Kafka read requires `subscribe` (explicit topics)".to_owned(),
                    )
                }
            },
            KafkaSourceError::SubscriptionRequired => Some(
                "subscribe or subscribePattern is required for Kafka source".to_owned(),
            ),
        }
    }
}

fn push_quoted_names(out: &mut String, columns: &Vec<String>)
    ensures
        final(out)@ == old(out)@ + quoted_names(texts(columns@)),
{
    let ghost start = out@;
    let ghost all = texts(columns@);
    let mut i: usize = 0;
    proof {
        assert(start + quoted_names(all.take(0)) =~= start);
    }
    while i < columns.len()
        invariant
            i <= columns@.len() == all.len(),
            all == texts(columns@),
            out@ == start + quoted_names(all.take(i as int)),
        decreases columns@.len() - i,
    {
        let quoted = text::quote(columns[i].as_str());
        proof {
            assert(all.take(i + 1).drop_last() =~= all.take(i as int));
            assert(all.take(i + 1).last() == columns@[i as int]@);
        }
        if i > 0 {
            out.append(", ");
        }
        out.append(quoted.as_str());
        proof {
            assert(out@ =~= start + quoted_names(all.take(i + 1)));
        }
        i = i + 1;
    }
    assert(all.take(i as int) =~= all);
}

/// What a source begins its read with.
#[derive(Debug)]
pub enum SourceStart {
    Bounded { topics: Vec<String>, checkpoint: Option<CheckpointStore> },
    Realtime { topics: Vec<String>, store: CheckpointStore, interval_ms: u64 },
    Plain { subscription: Subscription },
}

/// The Kafka source operator.
#[derive(Debug)]
pub struct KafkaSourceExec {
    options: KafkaReadOptions,
    original_schema: Vec<Field<KafkaType>>,
    projected_schema: Vec<Field<KafkaType>>,
    projection: Vec<usize>,
    parse_value_as: Option<ValueParseSpec>,
    bounded: bool,
    checkpoint_location: Option<String>,
    realtime_interval_ms: Option<u64>,
    parallelism: usize,
}

/// The parameters of a Kafka source operator.
#[verifier::ext_equal]
pub struct SourceModel {
    pub options: KafkaReadOptions,
    pub original_schema: Seq<FieldModel<KafkaType>>,
    pub projected_schema: Seq<FieldModel<KafkaType>>,
    pub projection: Seq<usize>,
    /// The name of the column with the parsed value, where the value is parsed.
    pub parsed_value: Option<ValueParseSpec>,
    pub bounded: bool,
    pub checkpoint_location: Option<Seq<char>>,
    pub realtime_interval_ms: Option<u64>,
    pub parallelism: usize,
}

impl View for KafkaSourceExec {
    type V = SourceModel;

    closed spec fn view(&self) -> SourceModel {
        SourceModel {
            options: self.options,
            original_schema: fields_model(self.original_schema@),
            projected_schema: fields_model(self.projected_schema@),
            projection: self.projection@,
            parsed_value: self.parse_value_as,
            bounded: self.bounded,
            checkpoint_location: optional_text(self.checkpoint_location),
            realtime_interval_ms: self.realtime_interval_ms,
            parallelism: self.parallelism,
        }
    }
}

impl SourceModel {
    /// What every operator satisfies.
    pub open spec fn valid(self) -> bool {
        &&& self.parallelism >= 1
        &&& self.projected_schema == projected(self.original_schema, self.projection)
        &&& self.parsed_value is Some ==> names(self.projected_schema).contains("value"@)
    }

    /// The mode in which the source reads.
    pub open spec fn mode(self) -> ReadMode {
        read_mode(self.bounded, self.realtime_interval_ms)
    }

    /// The place of the checkpoint, where there is one and it can be used.
    pub open spec fn checkpoint(self) -> Option<LocationModel> {
        match self.checkpoint_location {
            Some(location) => checkpoint_location(location),
            None => None,
        }
    }

    /// Whether an instance begins its read in a certain way.
    pub open spec fn starts_with(self, partition: usize, start: SourceStart) -> bool {
        &&& partition < self.parallelism
        &&& match start {
            SourceStart::Bounded { topics, checkpoint } => {
                &&& self.mode() == ReadMode::Bounded
                &&& self.options.subscribe matches Some(csv)
                &&& texts(topics@) == non_empty_trimmed(split_on(csv@, ','))
                &&& match checkpoint {
                    Some(store) => self.checkpoint() == Some(store@),
                    None => self.checkpoint() is None,
                }
            },
            SourceStart::Realtime { topics, store, interval_ms } => {
                &&& self.mode() == ReadMode::Realtime
                &&& self.options.subscribe matches Some(csv)
                &&& texts(topics@) == non_empty_trimmed(split_on(csv@, ','))
                &&& self.checkpoint() == Some(store@)
                &&& self.realtime_interval_ms == Some(interval_ms)
            },
            SourceStart::Plain { subscription } => {
                &&& self.mode() == ReadMode::Plain
                &&& is_subscription(self.options, Some(subscription))
            },
        }
    }

    /// Whether an instance cannot begin its read, and why.
    pub open spec fn refuses_start(self, partition: usize, error: KafkaSourceError) -> bool {
        match error {
            KafkaSourceError::PartitionOutOfRange { partition: p, parallelism } => partition
                >= self.parallelism && p == partition && parallelism == self.parallelism,
            KafkaSourceError::CheckpointRequired => {
                &&& partition < self.parallelism
                &&& self.mode() == ReadMode::Realtime
                &&& self.checkpoint_location is None
            },
            KafkaSourceError::CheckpointRefused { error } => {
                &&& partition < self.parallelism
                &&& self.mode() == ReadMode::Realtime
                &&& self.checkpoint_location matches Some(location)
                &&& is_location_error(location, error)
            },
            KafkaSourceError::TopicsRequired { realtime } => {
                &&& partition < self.parallelism
                &&& self.mode() == if realtime {
                    ReadMode::Realtime
                } else {
                    ReadMode::Bounded
                }
                &&& realtime ==> self.checkpoint() is Some
                &&& self.options.subscribe is None
            },
            KafkaSourceError::SubscriptionRequired => {
                &&& partition < self.parallelism
                &&& self.mode() == ReadMode::Plain
                &&& is_subscription(self.options, None)
            },
            _ => false,
        }
    }
}

impl KafkaSourceExec {
    /// A source that reads the projected columns.
    pub fn try_new(
        options: KafkaReadOptions,
        schema: Vec<Field<KafkaType>>,
        projection: Vec<usize>,
        bounded: bool,
        checkpoint_location: Option<String>,
        realtime_interval_ms: Option<u64>,
        parallelism: usize,
    ) -> (result: Result<Self, KafkaSourceError>)
        ensures
            match result {
                Ok(exec) => {
                    &&& forall|k: int| 0 <= k < projection@.len() ==> projection@[k] < schema@.len()
                    &&& exec@.valid()
                    &&& exec@ == (SourceModel {
                        options,
                        original_schema: fields_model(schema@),
                        projected_schema: projected(fields_model(schema@), projection@),
                        projection: projection@,
                        parsed_value: None,
                        bounded,
                        checkpoint_location: optional_text(checkpoint_location),
                        realtime_interval_ms,
                        parallelism: if parallelism >= 1 {
                            parallelism
                        } else {
                            1
                        },
                    })
                },
                Err(KafkaSourceError::ColumnOutOfRange { index }) => index >= schema@.len() && exists|
                    k: int,
                |
                    0 <= k < projection@.len() && #[trigger] projection@[k] == index && forall|
                        j: int,
                    | 0 <= j < k ==> projection@[j] < schema@.len(),
                Err(_) => false,
            },
    {
        let projected_schema = match schema::project(schema.as_slice(), projection.as_slice()) {
            Ok(fields) => fields,
            Err(index) => {
                return Err(KafkaSourceError::ColumnOutOfRange { index });
            },
        };
        Ok(
            KafkaSourceExec {
                options,
                original_schema: schema,
                projected_schema,
                projection,
                parse_value_as: None,
                bounded,
                checkpoint_location,
                realtime_interval_ms,
                parallelism: if parallelism >= 1 {
                    parallelism
                } else {
                    1
                },
            },
        )
    }

    /// The source with the record value parsed inside it.
    pub fn with_parse_value_as(self, spec: ValueParseSpec) -> (result: Result<
        Self,
        KafkaSourceError,
    >)
        requires
            self@.valid(),
        ensures
            match result {
                Ok(exec) => {
                    &&& names(self@.projected_schema).contains("value"@)
                    &&& exec@.valid()
                    &&& exec@ == (SourceModel {
                        parsed_value: Some(spec),
                        ..self@
                    })
                },
                Err(e) => {
                    &&& !names(self@.projected_schema).contains("value"@)
                    &&& e matches KafkaSourceError::ValueNotProjected { columns }
                    &&& texts(columns@) == names(self@.projected_schema)
                },
            },
    {
        match schema::index_of(self.projected_schema.as_slice(), "value") {
            Some(i) => {
                assert(names(fields_model(self.projected_schema@))[i as int] == "value"@);
                let mut exec = self;
                exec.parse_value_as = Some(spec);
                Ok(exec)
            },
            None => {
                let mut columns: Vec<String> = Vec::new();
                let mut i: usize = 0;
                let ghost all = names(fields_model(self.projected_schema@));
                while i < self.projected_schema.len()
                    invariant
                        i <= self.projected_schema@.len() == all.len(),
                        all == names(fields_model(self.projected_schema@)),
                        columns@.len() == i,
                        forall|k: int| 0 <= k < i ==> (#[trigger] columns@[k])@ == all[k],
                    decreases self.projected_schema@.len() - i,
                {
                    columns.push(self.projected_schema[i].name.as_str().to_owned());
                    i = i + 1;
                }
                assert(texts(columns@) =~= all);
                Err(KafkaSourceError::ValueNotProjected { columns })
            },
        }
    }

    /// The columns that the source emits: the projected ones, with the parsed value in place of
    /// `value` where the value is parsed.
    pub fn emit_schema(&self) -> (fields: Option<Vec<Field<KafkaType>>>)
        requires
            self@.valid(),
        ensures
            fields is Some,
            match self@.parsed_value {
                Some(spec) => exists|i: usize| #[trigger]
                    is_index_of(names(self@.projected_schema), "value"@, Some(i)) && fields_model(
                        fields->0@,
                    ) == with_parsed_value(
                        self@.projected_schema,
                        i as int,
                        spec.output_field@,
                    ),
                None => fields_model(fields->0@) == self@.projected_schema,
            },
    {
        match &self.parse_value_as {
            Some(spec) => spec.output_data_schema(self.projected_schema.as_slice()),
            None => {
                let mut out: Vec<Field<KafkaType>> = Vec::new();
                let mut i: usize = 0;
                while i < self.projected_schema.len()
                    invariant
                        i <= self.projected_schema@.len(),
                        out@.len() == i,
                        forall|k: int|
                            0 <= k < i ==> (#[trigger] out@[k])@ == self.projected_schema@[k]@,
                    decreases self.projected_schema@.len() - i,
                {
                    out.push(self.projected_schema[i].copy());
                    i = i + 1;
                }
                assert(fields_model(out@) =~= fields_model(self.projected_schema@));
                Some(out)
            },
        }
    }

    /// The mode in which one instance of the source reads.
    pub fn plan_partition(&self, partition: usize) -> (result: Result<ReadMode, KafkaSourceError>)
        ensures
            result == if partition < self@.parallelism {
                Ok::<ReadMode, KafkaSourceError>(
                    read_mode(self@.bounded, self@.realtime_interval_ms),
                )
            } else {
                Err::<ReadMode, KafkaSourceError>(
                    KafkaSourceError::PartitionOutOfRange {
                        partition,
                        parallelism: self@.parallelism,
                    },
                )
            },
    {
        if partition >= self.parallelism {
            return Err(
                KafkaSourceError::PartitionOutOfRange {
                    partition,
                    parallelism: self.parallelism,
                },
            );
        }
        if self.bounded {
            Ok(ReadMode::Bounded)
        } else if self.realtime_interval_ms.is_some() {
            Ok(ReadMode::Realtime)
        } else {
            Ok(ReadMode::Plain)
        }
    }

    /// Decides how one instance of the source begins its read, once its client exists: with explicit
    /// topics where offsets are kept in a checkpoint, and with a usable checkpoint where it reads
    /// in realtime.
    pub fn start(&self, partition: usize) -> (result: Result<SourceStart, KafkaSourceError>)
        ensures
            match result {
                Ok(start) => self@.starts_with(partition, start),
                Err(e) => self@.refuses_start(partition, e),
            },
    {
        let mode = match self.plan_partition(partition) {
            Ok(mode) => mode,
            Err(e) => {
                return Err(e);
            },
        };
        match mode {
            ReadMode::Bounded => {
                let topics = match &self.options.subscribe {
                    Some(csv) => parse_topics(csv.as_str()),
                    None => {
                        return Err(KafkaSourceError::TopicsRequired { realtime: false });
                    },
                };
                let checkpoint = match &self.checkpoint_location {
                    Some(location) => match CheckpointStore::from_location(location.as_str()) {
                        Ok(store) => Some(store),
                        Err(_) => None,
                    },
                    None => None,
                };
                Ok(SourceStart::Bounded { topics, checkpoint })
            },
            ReadMode::Realtime => {
                let store = match &self.checkpoint_location {
                    Some(location) => match CheckpointStore::from_location(location.as_str()) {
                        Ok(store) => store,
                        Err(error) => {
                            return Err(KafkaSourceError::CheckpointRefused { error });
                        },
                    },
                    None => {
                        return Err(KafkaSourceError::CheckpointRequired);
                    },
                };
                let topics = match &self.options.subscribe {
                    Some(csv) => parse_topics(csv.as_str()),
                    None => {
                        return Err(KafkaSourceError::TopicsRequired { realtime: true });
                    },
                };
                let interval_ms: u64 = match self.realtime_interval_ms {
                    Some(interval_ms) => interval_ms,
                    None => 0,
                };
                Ok(SourceStart::Realtime { topics, store, interval_ms })
            },
            ReadMode::Plain => match subscription(&self.options) {
                Some(subscription) => Ok(SourceStart::Plain { subscription }),
                None => Err(KafkaSourceError::SubscriptionRequired),
            },
        }
    }

    /// The text that describes the source in a plan.
    pub fn describe(&self) -> (out: String)
        ensures
            out@ == "KafkaSourceExec: bootstrap_servers="@ + self@.options.bootstrap_servers@
                + ", subscribe="@ + match self@.options.subscribe {
                Some(topics) => "Some("@ + debug_text(topics@) + ")"@,
                None => "None"@,
            },
    {
        let mut out = "KafkaSourceExec: bootstrap_servers=".to_owned();
        out.append(self.options.bootstrap_servers.as_str());
        out.append(", subscribe=");
        match &self.options.subscribe {
            Some(topics) => {
                let quoted = text::quote(topics.as_str());
                out.append("Some(");
                out.append(quoted.as_str());
                out.append(")");
                proof {
                    assert(out@ =~= "KafkaSourceExec: bootstrap_servers="@
                        + self.options.bootstrap_servers@ + ", subscribe="@ + ("Some("@
                        + debug_text(topics@) + ")"@));
                }
            },
            None => out.append("None"),
        }
        out
    }

    /// The same source for a plan with the given number of children, which has to be none.
    pub fn with_new_children(self, children: usize) -> (result: Result<Self, KafkaSourceError>)
        ensures
            match result {
                Ok(exec) => children == 0 && exec == self,
                Err(e) => children > 0 && e == KafkaSourceError::UnexpectedChildren,
            },
    {
        if children > 0 {
            Err(KafkaSourceError::UnexpectedChildren)
        } else {
            Ok(self)
        }
    }

    /// How the record value is parsed, where it is.
    pub fn parse_value_as(&self) -> (spec: Option<&ValueParseSpec>)
        ensures
            match spec {
                Some(spec) => self@.parsed_value == Some(*spec),
                None => self@.parsed_value is None,
            },
    {
        self.parse_value_as.as_ref()
    }

    /// The number of instances.
    pub fn parallelism(&self) -> (parallelism: usize)
        ensures
            parallelism == self@.parallelism,
    {
        self.parallelism
    }

    /// The options.
    pub fn options(&self) -> (options: &KafkaReadOptions)
        ensures
            *options == self@.options,
    {
        &self.options
    }

    /// The columns before projection.
    pub fn original_schema(&self) -> (fields: &Vec<Field<KafkaType>>)
        ensures
            fields_model(fields@) == self@.original_schema,
    {
        &self.original_schema
    }

    /// The projection.
    pub fn projection(&self) -> (projection: &[usize])
        ensures
            projection@ == self@.projection,
    {
        self.projection.as_slice()
    }

    /// Whether the source reads up to the current end of each partition only.
    pub fn bounded(&self) -> (bounded: bool)
        ensures
            bounded == self@.bounded,
    {
        self.bounded
    }

    /// The checkpoint location.
    pub fn checkpoint_location(&self) -> (location: Option<&str>)
        ensures
            match location {
                Some(l) => self@.checkpoint_location == Some(l@),
                None => self@.checkpoint_location is None,
            },
    {
        match &self.checkpoint_location {
            Some(l) => Some(l.as_str()),
            None => None,
        }
    }

    /// The epoch interval of a realtime source, in milliseconds.
    pub fn realtime_interval_ms(&self) -> (interval: Option<u64>)
        ensures
            interval == self@.realtime_interval_ms,
    {
        self.realtime_interval_ms
    }
}

/// A source starts or refuses to, never both.
pub proof fn law_refused_sources_do_not_start(
    m: SourceModel,
    partition: usize,
    start: SourceStart,
    error: KafkaSourceError,
)
    ensures
        m.starts_with(partition, start) && m.refuses_start(partition, error) ==> error
            is CheckpointRefused,
        partition >= m.parallelism ==> !m.starts_with(partition, start),
        m.starts_with(partition, start) ==> (start is Bounded <==> m.bounded),
        m.starts_with(partition, start) ==> (start is Realtime <==> !m.bounded
            && m.realtime_interval_ms is Some),
        m.starts_with(partition, start) && !(start is Plain) ==> m.options.subscribe is Some,
        m.starts_with(partition, start) && start is Plain ==> m.options.subscribe is Some
            || m.options.subscribe_pattern is Some,
{
}

/// A parsed value takes the place of the value column, can be missing, and leaves all other columns.
pub proof fn law_parsed_value_takes_the_place(
    fields: Seq<FieldModel<KafkaType>>,
    index: int,
    name: Seq<char>,
    i: int,
)
    requires
        0 <= index < fields.len(),
        0 <= i < fields.len(),
    ensures
        with_parsed_value(fields, index, name).len() == fields.len(),
        i != index ==> with_parsed_value(fields, index, name)[i] == fields[i],
        with_parsed_value(fields, index, name)[index].name == name,
        with_parsed_value(fields, index, name)[index].data_type == KafkaType::ParsedValue,
        with_parsed_value(fields, index, name)[index].nullable,
{
}

/// The columns of the schema are those in which records are collected: the same number, and each
/// with the type of its cells.
pub proof fn law_schema_fits_the_columns(rows: Seq<RecordModel>, i: usize)
    requires
        i < kafka_fields().len(),
    ensures
        kafka_fields().len() == COLUMN_COUNT,
        match column_at(rows, i) {
            ColumnModel::Key(_) => kafka_fields()[i as int] == column(
                "key"@,
                KafkaType::Binary,
                true,
            ),
            ColumnModel::Value(_) => kafka_fields()[i as int] == column(
                "value"@,
                KafkaType::Binary,
                true,
            ),
            ColumnModel::Topic(_) => kafka_fields()[i as int] == column(
                "topic"@,
                KafkaType::Utf8,
                false,
            ),
            ColumnModel::Partition(_) => kafka_fields()[i as int] == column(
                "partition"@,
                KafkaType::Int32,
                false,
            ),
            ColumnModel::Offset(_) => kafka_fields()[i as int] == column(
                "offset"@,
                KafkaType::Int64,
                false,
            ),
            ColumnModel::Timestamp(_) => kafka_fields()[i as int] == column(
                "timestamp"@,
                KafkaType::TimestampMillisecond,
                false,
            ),
            ColumnModel::TimestampType(_) => kafka_fields()[i as int] == column(
                "timestampType"@,
                KafkaType::Int32,
                false,
            ),
        },
{
}

} // verus!
