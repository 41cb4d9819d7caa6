//! The Kafka sink: produces each row of a stream as a record, at least once or exactly once.

use vstd::prelude::*;
use vstd::utf8::encode_utf8;

use crate::assoc::AssocMap;
use crate::bytes;
use crate::kafka::columns::byte_cells;
use crate::kafka::offsets::{
    decode_offsets, staged_epoch_key_of, stored_offsets, TopicPartition,
};
use crate::kafka::options::{optional_text, text_map};
use crate::kafka::source::{apply_extra, set_entry};
use crate::record_batch;
use crate::record_batch::{batch_fields, batch_rows, cells, Batch};
use crate::schema;
use crate::schema::{fields_model, is_index_of, names, Field};
use crate::text;
use crate::text::{
    decimal, has_prefix, is_digit, last_position, lemma_decimal_denotes, lemma_decimal_injective,
    parse_unsigned,
};
use crate::text_cells::{
    column_data, column_texts, texts_of, times_fit, TextError, DEPTH_LIMIT,
};

verus! {

/// Why a Kafka sink cannot be planned or executed.
#[derive(Debug)]
pub enum KafkaSinkError {
    MissingBootstrapServers,
    MissingTopic,
    /// Exactly-once delivery needs the consumer group of the source.
    MissingGroup,
    ValueColumnNotFound { name: String },
    KeyColumnNotFound { name: String },
    /// No column is called `value`, and there is not just one column.
    NoValueColumn { columns: usize },
    /// The sink has a single partition.
    InvalidPartition { partition: usize },
    /// The sink has a single child.
    WrongChildren,
}

impl KafkaSinkError {
    /// The message for the user.
    pub open spec fn text(self) -> Seq<char> {
        match self {
            KafkaSinkError::MissingBootstrapServers =>
                "kafka sink requires kafka.bootstrap.servers"@,
            KafkaSinkError::MissingTopic => "kafka sink requires the `topic` option"@,
            KafkaSinkError::MissingGroup =>
                "kafka sink exactly-once requires `kafka.group.id` (shared with the source)"@,
            KafkaSinkError::ValueColumnNotFound { name } => "kafka sink: value column `"@ + name@
                + "` not found"@,
            KafkaSinkError::KeyColumnNotFound { name } => "kafka sink: key column `"@ + name@
                + "` not found"@,
            KafkaSinkError::NoValueColumn { columns } =>
                "kafka sink: no `value` column and input has "@ + decimal(columns as nat)
                + " columns; set the value column explicitly"@,
            KafkaSinkError::InvalidPartition { partition } =>
                "KafkaSinkExec: invalid partition "@ + decimal(partition as nat),
            KafkaSinkError::WrongChildren => "KafkaSinkExec requires exactly one child"@,
        }
    }

    /// The message for the user.
    pub fn message(&self) -> (out: String)
        ensures
            out@ == self.text(),
    {
        match self {
            KafkaSinkError::MissingBootstrapServers => {
                "kafka sink requires kafka.bootstrap.servers".to_owned()
            },
            KafkaSinkError::MissingTopic => "kafka sink requires the `topic` option".to_owned(),
            KafkaSinkError::MissingGroup => {
                "kafka sink exactly-once requires `kafka.group.id` (shared with the source)".to_owned()
            },
            KafkaSinkError::ValueColumnNotFound { name } => {
                let mut out = text::concat("kafka sink: value column `", name.as_str());
                out.append("` not found");
                out
            },
            KafkaSinkError::KeyColumnNotFound { name } => {
                let mut out = text::concat("kafka sink: key column `", name.as_str());
                out.append("` not found");
                out
            },
            KafkaSinkError::NoValueColumn { columns } => {
                let mut out = "kafka sink: no `value` column and input has ".to_owned();
                text::push_decimal(&mut out, *columns as u64);
                out.append(" columns; set the value column explicitly");
                out
            },
            KafkaSinkError::InvalidPartition { partition } => {
                let mut out = "KafkaSinkExec: invalid partition ".to_owned();
                text::push_decimal(&mut out, *partition as u64);
                out
            },
            KafkaSinkError::WrongChildren => {
                "KafkaSinkExec requires exactly one child".to_owned()
            },
        }
    }
}

/// The Kafka sink operator.
#[derive(Debug)]
pub struct KafkaSinkExec {
    bootstrap_servers: String,
    topic: String,
    value_col: Option<String>,
    key_col: Option<String>,
    extra: AssocMap<String, String>,
    exactly_once: bool,
    group_id: Option<String>,
    checkpoint_location: Option<String>,
    sink_partition: usize,
}

/// The parameters of a Kafka sink operator.
#[verifier::ext_equal]
pub struct SinkModel {
    pub bootstrap_servers: Seq<char>,
    pub topic: Seq<char>,
    pub value_col: Option<Seq<char>>,
    pub key_col: Option<Seq<char>>,
    pub extra: Map<Seq<char>, Seq<char>>,
    pub exactly_once: bool,
    pub group_id: Option<Seq<char>>,
    pub checkpoint_location: Option<Seq<char>>,
    pub sink_partition: usize,
}

impl View for KafkaSinkExec {
    type V = SinkModel;

    closed spec fn view(&self) -> SinkModel {
        SinkModel {
            bootstrap_servers: self.bootstrap_servers@,
            topic: self.topic@,
            value_col: optional_text(self.value_col),
            key_col: optional_text(self.key_col),
            extra: text_map(self.extra@),
            exactly_once: self.exactly_once,
            group_id: optional_text(self.group_id),
            checkpoint_location: optional_text(self.checkpoint_location),
            sink_partition: self.sink_partition,
        }
    }
}

impl SinkModel {
    /// What every sink satisfies.
    pub open spec fn valid(self) -> bool {
        &&& self.bootstrap_servers.len() > 0
        &&& self.topic.len() > 0
        &&& self.exactly_once ==> self.group_id is Some
    }

    /// The client configuration of the producer.
    pub open spec fn producer_config(self) -> Map<Seq<char>, Seq<char>> {
        let base = Map::<Seq<char>, Seq<char>>::empty().insert(
            "bootstrap.servers"@,
            self.bootstrap_servers,
        ).insert("linger.ms"@, "5"@).insert("queue.buffering.max.messages"@, "2000000"@).insert(
            "compression.type"@,
            "lz4"@,
        );
        let config = if self.exactly_once {
            base.insert(
                "transactional.id"@,
                "vajra-sink-"@ + self.topic + "-"@ + decimal(self.sink_partition as nat),
            ).insert("enable.idempotence"@, "true"@).insert("transaction.timeout.ms"@, "120000"@)
        } else {
            base
        };
        config.union_prefer_right(self.extra)
    }
}

fn text_of(s: &Option<String>) -> (t: Option<&str>)
    ensures
        match t {
            Some(t) => optional_text(*s) == Some(t@),
            None => *s is None,
        },
{
    match s {
        Some(s) => Some(s.as_str()),
        None => None,
    }
}

impl KafkaSinkExec {
    /// A sink; servers and a topic have to be given, and for exactly-once delivery a group.
    pub fn try_new(
        bootstrap_servers: String,
        topic: String,
        value_col: Option<String>,
        key_col: Option<String>,
        extra: AssocMap<String, String>,
        exactly_once: bool,
        group_id: Option<String>,
        checkpoint_location: Option<String>,
        sink_partition: usize,
    ) -> (result: Result<Self, KafkaSinkError>)
        ensures
            match result {
                Ok(sink) => {
                    &&& sink@.valid()
                    &&& sink@ == (SinkModel {
                        bootstrap_servers: bootstrap_servers@,
                        topic: topic@,
                        value_col: optional_text(value_col),
                        key_col: optional_text(key_col),
                        extra: text_map(extra@),
                        exactly_once,
                        group_id: optional_text(group_id),
                        checkpoint_location: optional_text(checkpoint_location),
                        sink_partition,
                    })
                },
                Err(e) => e == if bootstrap_servers@.len() == 0 {
                    KafkaSinkError::MissingBootstrapServers
                } else if topic@.len() == 0 {
                    KafkaSinkError::MissingTopic
                } else {
                    KafkaSinkError::MissingGroup
                } && (bootstrap_servers@.len() == 0 || topic@.len() == 0 || (exactly_once
                    && group_id is None)),
            },
    {
        if bootstrap_servers.as_str().is_empty() {
            return Err(KafkaSinkError::MissingBootstrapServers);
        }
        if topic.as_str().is_empty() {
            return Err(KafkaSinkError::MissingTopic);
        }
        if exactly_once && group_id.is_none() {
            return Err(KafkaSinkError::MissingGroup);
        }
        Ok(
            KafkaSinkExec {
                bootstrap_servers,
                topic,
                value_col,
                key_col,
                extra,
                exactly_once,
                group_id,
                checkpoint_location,
                sink_partition,
            },
        )
    }

    /// The client configuration of the producer.
    pub fn producer_config(&self) -> (config: AssocMap<String, String>)
        ensures
            text_map(config@) == self@.producer_config(),
    {
        let mut config: AssocMap<String, String> = AssocMap::new();
        assert(text_map(config@) =~= Map::<Seq<char>, Seq<char>>::empty());
        set_entry(&mut config, "bootstrap.servers", self.bootstrap_servers.as_str());
        set_entry(&mut config, "linger.ms", "5");
        set_entry(&mut config, "queue.buffering.max.messages", "2000000");
        set_entry(&mut config, "compression.type", "lz4");
        if self.exactly_once {
            let mut id = text::concat("vajra-sink-", self.topic.as_str());
            id.append("-");
            text::push_decimal(&mut id, self.sink_partition as u64);
            set_entry(&mut config, "transactional.id", id.as_str());
            set_entry(&mut config, "enable.idempotence", "true");
            set_entry(&mut config, "transaction.timeout.ms", "120000");
        }
        apply_extra(&mut config, &self.extra);
        config
    }

    /// Checks the partition to execute: there is only the first.
    pub fn check_partition(&self, partition: usize) -> (result: Result<(), KafkaSinkError>)
        ensures
            match result {
                Ok(_) => partition == 0,
                Err(e) => partition != 0 && e == (KafkaSinkError::InvalidPartition { partition }),
            },
    {
        if partition != 0 {
            return Err(KafkaSinkError::InvalidPartition { partition });
        }
        Ok(())
    }

    /// The same sink for a plan with the given number of children, which has to be one.
    pub fn with_new_children(self, children: usize) -> (result: Result<Self, KafkaSinkError>)
        ensures
            match result {
                Ok(sink) => children == 1 && sink == self,
                Err(e) => children != 1 && e == KafkaSinkError::WrongChildren,
            },
    {
        if children != 1 {
            return Err(KafkaSinkError::WrongChildren);
        }
        Ok(self)
    }

    /// The number of the sink task.
    pub fn sink_partition(&self) -> (partition: usize)
        ensures
            partition == self@.sink_partition,
    {
        self.sink_partition
    }

    /// The bootstrap servers.
    pub fn bootstrap_servers(&self) -> (servers: &str)
        ensures
            servers@ == self@.bootstrap_servers,
    {
        self.bootstrap_servers.as_str()
    }

    /// The topic.
    pub fn topic(&self) -> (topic: &str)
        ensures
            topic@ == self@.topic,
    {
        self.topic.as_str()
    }

    /// The name of the value column.
    pub fn value_col(&self) -> (name: Option<&str>)
        ensures
            match name {
                Some(n) => self@.value_col == Some(n@),
                None => self@.value_col is None,
            },
    {
        text_of(&self.value_col)
    }

    /// The name of the key column.
    pub fn key_col(&self) -> (name: Option<&str>)
        ensures
            match name {
                Some(n) => self@.key_col == Some(n@),
                None => self@.key_col is None,
            },
    {
        text_of(&self.key_col)
    }

    /// The client options.
    pub fn extra(&self) -> (extra: &AssocMap<String, String>)
        ensures
            text_map(extra@) == self@.extra,
    {
        &self.extra
    }

    /// Whether delivery is exactly once.
    pub fn exactly_once(&self) -> (eo: bool)
        ensures
            eo == self@.exactly_once,
    {
        self.exactly_once
    }

    /// The consumer group of the source.
    pub fn group_id(&self) -> (group: Option<&str>)
        ensures
            match group {
                Some(g) => self@.group_id == Some(g@),
                None => self@.group_id is None,
            },
    {
        text_of(&self.group_id)
    }

    /// The checkpoint location.
    pub fn checkpoint_location(&self) -> (location: Option<&str>)
        ensures
            match location {
                Some(l) => self@.checkpoint_location == Some(l@),
                None => self@.checkpoint_location is None,
            },
    {
        text_of(&self.checkpoint_location)
    }
}

/// The position of the value column: the requested one, else `value`, else the only one.
pub fn resolve_value_idx<T>(fields: &[Field<T>], requested: Option<&str>) -> (result: Result<
    usize,
    KafkaSinkError,
>)
    ensures
        ({
            let all = names(fields_model(fields@));
            match requested {
                Some(name) => match result {
                    Ok(i) => is_index_of(all, name@, Some(i)),
                    Err(e) => {
                        &&& !all.contains(name@)
                        &&& e matches KafkaSinkError::ValueColumnNotFound { name: n }
                        &&& n@ == name@
                    },
                },
                None => match result {
                    Ok(i) => is_index_of(all, "value"@, Some(i)) || (!all.contains("value"@) && i
                        == 0 && fields@.len() == 1),
                    Err(e) => {
                        &&& !all.contains("value"@)
                        &&& fields@.len() != 1
                        &&& e == (KafkaSinkError::NoValueColumn { columns: fields@.len() as usize })
                    },
                },
            }
        }),
{
    if let Some(name) = requested {
        return match schema::index_of(fields, name) {
            Some(i) => Ok(i),
            None => Err(KafkaSinkError::ValueColumnNotFound { name: name.to_owned() }),
        };
    }
    if let Some(i) = schema::index_of(fields, "value") {
        return Ok(i);
    }
    if fields.len() == 1 {
        return Ok(0);
    }
    Err(KafkaSinkError::NoValueColumn { columns: fields.len() })
}

/// The position of the key column: the requested one, which has to exist, else `key` where there
/// is such a column.
pub fn resolve_key_idx<T>(fields: &[Field<T>], requested: Option<&str>) -> (result: Result<
    Option<usize>,
    KafkaSinkError,
>)
    ensures
        ({
            let all = names(fields_model(fields@));
            match requested {
                Some(name) => match result {
                    Ok(i) => i is Some && is_index_of(all, name@, i),
                    Err(e) => {
                        &&& !all.contains(name@)
                        &&& e matches KafkaSinkError::KeyColumnNotFound { name: n }
                        &&& n@ == name@
                    },
                },
                None => result matches Ok(i) && is_index_of(all, "key"@, i),
            }
        }),
{
    match requested {
        Some(name) => match schema::index_of(fields, name) {
            Some(i) => Ok(Some(i)),
            None => Err(KafkaSinkError::KeyColumnNotFound { name: name.to_owned() }),
        },
        None => Ok(schema::index_of(fields, "key")),
    }
}

/// A record to produce.
#[derive(Debug)]
pub struct SinkRecord {
    pub key: Option<Vec<u8>>,
    pub payload: Vec<u8>,
}

/// A record to produce.
#[verifier::ext_equal]
pub struct SinkRecordModel {
    pub key: Option<Seq<u8>>,
    pub payload: Seq<u8>,
}

impl View for SinkRecord {
    type V = SinkRecordModel;

    open spec fn view(&self) -> SinkRecordModel {
        SinkRecordModel {
            key: match self.key {
                Some(k) => Some(k@),
                None => None,
            },
            payload: self.payload@,
        }
    }
}

/// The records of rows with the given values and keys: rows without a value are dropped, and a
/// missing key stays missing.
pub open spec fn records_of(values: Seq<Option<Seq<u8>>>, keys: Option<Seq<Option<Seq<u8>>>>) -> Seq<
    SinkRecordModel,
>
    decreases values.len(),
{
    if values.len() == 0 {
        Seq::empty()
    } else {
        let before = records_of(values.drop_last(), keys);
        match values.last() {
            Some(payload) => before.push(
                SinkRecordModel {
                    key: match keys {
                        Some(k) => k[values.len() - 1],
                        None => None,
                    },
                    payload,
                },
            ),
            None => before,
        }
    }
}

/// The records of a batch: its rows that have a value, in their order.
pub fn batch_records(values: &Vec<Option<Vec<u8>>>, keys: Option<&Vec<Option<Vec<u8>>>>) -> (records:
    Vec<SinkRecord>)
    requires
        keys is Some ==> keys->0@.len() == values@.len(),
    ensures
        records@.map_values(|r: SinkRecord| r@) == records_of(
            byte_cells(values@),
            match keys {
                Some(k) => Some(byte_cells(k@)),
                None => None,
            },
        ),
{
    let ghost vs = byte_cells(values@);
    let ghost ks = match keys {
        Some(k) => Some(byte_cells(k@)),
        None => None::<Seq<Option<Seq<u8>>>>,
    };
    let mut records: Vec<SinkRecord> = Vec::new();
    let mut r: usize = 0;
    proof {
        assert(vs.take(0) =~= Seq::<Option<Seq<u8>>>::empty());
        assert(records@.map_values(|r: SinkRecord| r@) =~= Seq::<SinkRecordModel>::empty());
    }
    while r < values.len()
        invariant
            r <= values@.len(),
            keys is Some ==> keys->0@.len() == values@.len(),
            vs == byte_cells(values@),
            ks == (match keys {
                Some(k) => Some(byte_cells(k@)),
                None => None::<Seq<Option<Seq<u8>>>>,
            }),
            records@.map_values(|r: SinkRecord| r@) == records_of(vs.take(r as int), ks),
        decreases values@.len() - r,
    {
        let ghost before = records@.map_values(|r: SinkRecord| r@);
        proof {
            assert(vs.take(r + 1).drop_last() =~= vs.take(r as int));
            assert(vs.take(r + 1).last() == vs[r as int]);
        }
        if let Some(value) = &values[r] {
            let key = match keys {
                Some(k) => match &k[r] {
                    Some(bytes) => Some(bytes::copy(bytes.as_slice())),
                    None => None,
                },
                None => None,
            };
            let record = SinkRecord { key, payload: bytes::copy(value.as_slice()) };
            let ghost view = record@;
            proof {
                if keys is Some {
                    assert(byte_cells(keys->0@)[r as int] == (match keys->0@[r as int] {
                        Some(b) => Some(b@),
                        None => None,
                    }));
                }
            }
            records.push(record);
            assert(records@.map_values(|r: SinkRecord| r@) =~= before.push(view));
        }
        r = r + 1;
    }
    assert(vs.take(r as int) =~= vs);
    records
}

/// Texts as their bytes.
pub open spec fn text_bytes(texts: Seq<Option<Seq<char>>>) -> Seq<Option<Seq<u8>>> {
    texts.map_values(
        |t: Option<Seq<char>>|
            match t {
                Some(text) => Some(encode_utf8(text)),
                None => None,
            },
    )
}

fn bytes_of(texts: &Vec<Option<String>>) -> (out: Vec<Option<Vec<u8>>>)
    ensures
        byte_cells(out@) == text_bytes(cells(texts@)),
{
    let ghost all = text_bytes(cells(texts@));
    let mut out: Vec<Option<Vec<u8>>> = Vec::new();
    let mut i: usize = 0;
    while i < texts.len()
        invariant
            i <= texts@.len() == all.len(),
            all == text_bytes(cells(texts@)),
            byte_cells(out@) == all.take(i as int),
        decreases texts@.len() - i,
    {
        let ghost before = byte_cells(out@);
        let cell = match &texts[i] {
            Some(text) => Some(bytes::copy(text.as_str().as_bytes())),
            None => None,
        };
        out.push(cell);
        i = i + 1;
        proof {
            assert(cells(texts@)[i - 1] == (match texts@[i - 1] {
                Some(s) => Some(s@),
                None => None,
            }));
            assert(byte_cells(out@) =~= before.push(all[i - 1]));
            assert(all.take(i as int) =~= before.push(all[i - 1]));
        }
    }
    assert(all.take(i as int) =~= all);
    out
}

/// Why a batch gives no records.
#[derive(Debug)]
pub enum SinkTextError {
    /// The values are no texts.
    Value(TextError),
    /// The keys are no texts.
    Key(TextError),
}

/// Whether the cells of a column are texts.
pub open spec fn gives_texts(batch: Batch, index: int) -> bool {
    &&& times_fit(column_data(batch, index), DEPTH_LIMIT as nat)
    &&& column_texts(batch, index) is Some
}

/// The records of a batch, by the position of the column of values and of that of keys: for each row
/// with a value, in order, the bytes of the texts of its value and key.
pub fn sink_records(batch: &Batch, value: usize, key: Option<usize>) -> (result: Result<
    Vec<SinkRecord>,
    SinkTextError,
>)
    requires
        value < batch_fields(*batch).len(),
        key is Some ==> key->0 < batch_fields(*batch).len(),
    ensures
        match result {
            Ok(records) => if batch_rows(*batch) == 0 {
                records@.len() == 0
            } else {
                &&& gives_texts(*batch, value as int)
                &&& key is Some ==> gives_texts(*batch, key->0 as int)
                &&& records@.map_values(|r: SinkRecord| r@) == records_of(
                    text_bytes(column_texts(*batch, value as int)->0),
                    match key {
                        Some(k) => Some(text_bytes(column_texts(*batch, k as int)->0)),
                        None => None,
                    },
                )
            },
            Err(SinkTextError::Value(_)) => {
                &&& batch_rows(*batch) > 0
                &&& !gives_texts(*batch, value as int)
            },
            Err(SinkTextError::Key(_)) => {
                &&& batch_rows(*batch) > 0
                &&& gives_texts(*batch, value as int)
                &&& key is Some && !gives_texts(*batch, key->0 as int)
            },
        },
{
    if record_batch::row_count(batch) == 0 {
        return Ok(Vec::new());
    }
    let texts = match texts_of(batch, value) {
        Ok(texts) => texts,
        Err(e) => {
            return Err(SinkTextError::Value(e));
        },
    };
    let values = bytes_of(&texts);
    proof {
        assert(byte_cells(values@).len() == values@.len());
        assert(cells(texts@).len() == texts@.len());
    }
    match key {
        Some(k) => {
            let texts = match texts_of(batch, k) {
                Ok(texts) => texts,
                Err(e) => {
                    return Err(SinkTextError::Key(e));
                },
            };
            let keys = bytes_of(&texts);
            proof {
                assert(byte_cells(keys@).len() == keys@.len());
                assert(cells(texts@).len() == texts@.len());
            }
            Ok(batch_records(&values, Some(&keys)))
        },
        None => Ok(batch_records(&values, None)),
    }
}

/// The number of values that are there.
pub open spec fn present_values(values: Seq<Option<Seq<u8>>>) -> nat
    decreases values.len(),
{
    if values.len() == 0 {
        0
    } else if values.last() is Some {
        present_values(values.drop_last()) + 1
    } else {
        present_values(values.drop_last())
    }
}

/// The records of a batch are those of its columns of values and keys: there is one for each row with
/// a value and none besides, the records are in the order of the rows, and each has the value and the
/// key of its row.
pub proof fn law_records_are_those_of_the_rows(
    values: Seq<Option<Seq<u8>>>,
    keys: Option<Seq<Option<Seq<u8>>>>,
    row: int,
)
    requires
        0 <= row < values.len(),
        keys is Some ==> keys->0.len() == values.len(),
    ensures
        records_of(values, keys).len() == present_values(values),
        values[row] matches Some(payload) ==> {
            let at = present_values(values.take(row)) as int;
            &&& 0 <= at < records_of(values, keys).len()
            &&& records_of(values, keys)[at] == (SinkRecordModel {
                key: match keys {
                    Some(k) => k[row],
                    None => None,
                },
                payload,
            })
        },
{
    lemma_records(values, keys, row);
}

proof fn lemma_records(values: Seq<Option<Seq<u8>>>, keys: Option<Seq<Option<Seq<u8>>>>, row: int)
    ensures
        records_of(values, keys).len() == present_values(values),
        0 <= row < values.len() ==> (values[row] matches Some(payload) ==> {
            let at = present_values(values.take(row)) as int;
            &&& 0 <= at < records_of(values, keys).len()
            &&& records_of(values, keys)[at] == (SinkRecordModel {
                key: match keys {
                    Some(k) => k[row],
                    None => None,
                },
                payload,
            })
        }),
    decreases values.len(),
{
    if values.len() > 0 {
        let before = values.drop_last();
        lemma_records(before, keys, row);
        if 0 <= row < before.len() {
            assert(before.take(row) =~= values.take(row));
        } else if row == before.len() {
            assert(values.take(row) =~= before);
        }
    }
}

/// An operation on the producer.
#[derive(Debug, Clone, Copy, PartialEq, Eq, Structural)]
pub enum SinkStep {
    InitTransactions,
    BeginTransaction,
    /// Add the offsets that the source staged for the epoch to the transaction.
    SendOffsets { epoch: u64 },
    CommitTransaction,
    Flush,
    /// Tell the consumer of the sink that the epoch is durable.
    Acknowledge,
}

/// What a stream carries besides rows.
#[derive(Debug, Clone, Copy, PartialEq, Eq, Structural)]
pub enum SinkMarker {
    Checkpoint { epoch: u64 },
    EndOfData,
    Other,
}

/// What a sink does before it consumes the stream.
pub open spec fn start_steps(exactly_once: bool) -> Seq<SinkStep> {
    if exactly_once {
        seq![SinkStep::InitTransactions, SinkStep::BeginTransaction]
    } else {
        Seq::empty()
    }
}

/// What a sink does on a marker. `offsets` says whether the source staged offsets for the epoch.
pub open spec fn marker_steps(exactly_once: bool, marker: SinkMarker, offsets: bool) -> Seq<
    SinkStep,
> {
    match marker {
        SinkMarker::Checkpoint { epoch } => if exactly_once {
            (if offsets {
                seq![SinkStep::SendOffsets { epoch }]
            } else {
                Seq::empty()
            }) + seq![
                SinkStep::CommitTransaction,
                SinkStep::BeginTransaction,
                SinkStep::Acknowledge,
            ]
        } else {
            seq![SinkStep::Flush, SinkStep::Acknowledge]
        },
        SinkMarker::EndOfData => if exactly_once {
            seq![SinkStep::CommitTransaction, SinkStep::Acknowledge]
        } else {
            seq![SinkStep::Flush, SinkStep::Acknowledge]
        },
        SinkMarker::Other => Seq::empty(),
    }
}

/// What a sink does before it consumes the stream.
pub fn plan_start(exactly_once: bool) -> (steps: Vec<SinkStep>)
    ensures
        steps@ == start_steps(exactly_once),
{
    let mut steps: Vec<SinkStep> = Vec::new();
    if exactly_once {
        steps.push(SinkStep::InitTransactions);
        steps.push(SinkStep::BeginTransaction);
    }
    assert(steps@ =~= start_steps(exactly_once));
    steps
}

/// What a sink does on a marker: at the end of an epoch it makes the records durable, together
/// with the consumed offsets where delivery is exactly once.
pub fn plan_marker(exactly_once: bool, marker: SinkMarker, offsets: bool) -> (steps: Vec<SinkStep>)
    ensures
        steps@ == marker_steps(exactly_once, marker, offsets),
{
    let mut steps: Vec<SinkStep> = Vec::new();
    match marker {
        SinkMarker::Checkpoint { epoch } => {
            if exactly_once {
                if offsets {
                    steps.push(SinkStep::SendOffsets { epoch });
                }
                steps.push(SinkStep::CommitTransaction);
                steps.push(SinkStep::BeginTransaction);
            } else {
                steps.push(SinkStep::Flush);
            }
            steps.push(SinkStep::Acknowledge);
        },
        SinkMarker::EndOfData => {
            if exactly_once {
                steps.push(SinkStep::CommitTransaction);
            } else {
                steps.push(SinkStep::Flush);
            }
            steps.push(SinkStep::Acknowledge);
        },
        SinkMarker::Other => {},
    }
    assert(steps@ =~= marker_steps(exactly_once, marker, offsets));
    steps
}

/// What the producer answered to a record.
#[derive(Debug, Clone, Copy, PartialEq, Eq, Structural)]
pub enum SendOutcome {
    Sent,
    QueueFull,
    Failed,
}

/// What to do with a record after the producer's answer.
#[derive(Debug, Clone, Copy, PartialEq, Eq, Structural)]
pub enum SendDecision {
    /// Go on with the next record.
    Next,
    /// Wait, then offer the same record again.
    Retry,
    /// Give up.
    Fail,
}

/// A full queue is waited out; any other failure ends the sink.
pub fn after_send(outcome: SendOutcome) -> (decision: SendDecision)
    ensures
        decision == match outcome {
            SendOutcome::Sent => SendDecision::Next,
            SendOutcome::QueueFull => SendDecision::Retry,
            SendOutcome::Failed => SendDecision::Fail,
        },
{
    match outcome {
        SendOutcome::Sent => SendDecision::Next,
        SendOutcome::QueueFull => SendDecision::Retry,
        SendOutcome::Failed => SendDecision::Fail,
    }
}

/// The checkpoint key of the offsets staged for an epoch by all instances of the source together.
pub open spec fn shared_staged_key(epoch: u64) -> Seq<char> {
    "sources/0/staged-epoch-"@ + decimal(epoch as nat)
}

/// Whether a checkpoint key holds offsets staged for an epoch, by one instance of the source or by
/// all together.
pub open spec fn is_staged_key(key: Seq<char>, epoch: u64) -> bool {
    key == shared_staged_key(epoch) || exists|inst: u64|
        key == #[trigger] staged_epoch_key_of(inst as nat, epoch as nat)
}

/// The checkpoint key of the offsets staged for an epoch by all instances of the source together.
pub fn sink_staged_key(epoch: u64) -> (key: String)
    ensures
        key@ == shared_staged_key(epoch),
{
    let mut key = "sources/0/staged-epoch-".to_owned();
    text::push_decimal(&mut key, epoch);
    key
}

/// Whether a checkpoint key holds offsets staged for an epoch.
pub fn is_staged_for(key: &str, epoch: u64) -> (staged: bool)
    ensures
        staged == is_staged_key(key@, epoch),
{
    let shared = sink_staged_key(epoch);
    if text::str_eq(key, shared.as_str()) {
        return true;
    }
    let rest = match text::strip_prefix(key, "sources/0/inst-") {
        Some(rest) => rest,
        None => {
            proof {
                assert forall|inst: u64|
                    key@ != #[trigger] staged_epoch_key_of(inst as nat, epoch as nat) by {
                    let whole = staged_epoch_key_of(inst as nat, epoch as nat);
                    assert(whole.take("sources/0/inst-"@.len() as int) =~= "sources/0/inst-"@);
                }
            }
            return false;
        },
    };
    let (inst_text, name) = match text::rsplit_once(rest.as_str(), '/') {
        Some(halves) => halves,
        None => {
            proof {
                assert forall|inst: u64|
                    key@ != #[trigger] staged_epoch_key_of(inst as nat, epoch as nat) by {
                    if key@ == staged_epoch_key_of(inst as nat, epoch as nat) {
                        lemma_instance_key_parts(key@, rest@, inst, epoch);
                    }
                }
            }
            return false;
        },
    };
    let mut wanted = "staged-epoch-".to_owned();
    text::push_decimal(&mut wanted, epoch);
    let inst: Option<u64> = text::parse_u64(inst_text.as_str());
    let same = match inst {
        Some(n) => {
            let canonical = text::u64_to_text(n);
            text::str_eq(canonical.as_str(), inst_text.as_str())
        },
        None => false,
    };
    let staged = same && text::str_eq(name.as_str(), wanted.as_str());
    proof {
        if staged {
            lemma_instance_key_built(key@, rest@, inst->0, epoch);
        } else {
            assert forall|i: u64|
                key@ != #[trigger] staged_epoch_key_of(i as nat, epoch as nat) by {
                if key@ == staged_epoch_key_of(i as nat, epoch as nat) {
                    lemma_instance_key_parts(key@, rest@, i, epoch);
                    lemma_decimal_denotes(i as nat);
                }
            }
        }
    }
    staged
}

/// The last position of a character that a later part does not hold.
proof fn lemma_last_position_before(a: Seq<char>, c: char, b: Seq<char>)
    requires
        !b.contains(c),
    ensures
        last_position(a.push(c) + b, c) == a.len(),
    decreases b.len(),
{
    let all = a.push(c) + b;
    if b.len() == 0 {
        assert(all =~= a.push(c));
    } else {
        assert(all.last() == b.last());
        assert(b.contains(b.last()));
        assert(all.drop_last() =~= a.push(c) + b.drop_last());
        assert(!b.drop_last().contains(c)) by {
            if b.drop_last().contains(c) {
                let i = b.drop_last().index_of(c);
                assert(b[i] == c);
            }
        }
        lemma_last_position_before(a, c, b.drop_last());
    }
}

/// The parts of the key of one instance.
proof fn lemma_instance_key_parts(key: Seq<char>, rest: Seq<char>, inst: u64, epoch: u64)
    requires
        key == staged_epoch_key_of(inst as nat, epoch as nat),
        rest == key.skip("sources/0/inst-"@.len() as int),
    ensures
        last_position(rest, '/') == decimal(inst as nat).len(),
        rest.take(last_position(rest, '/')) == decimal(inst as nat),
        rest.skip(last_position(rest, '/') + 1) == "staged-epoch-"@ + decimal(epoch as nat),
        parse_unsigned(decimal(inst as nat), u64::MAX as nat) == Some(inst as nat),
{
    reveal_strlit("staged-epoch-");
    let digits = decimal(inst as nat);
    let name = "staged-epoch-"@ + decimal(epoch as nat);
    assert("/staged-epoch-"@ =~= seq!['/'] + "staged-epoch-"@) by {
        reveal_strlit("/staged-epoch-");
    }
    assert(rest =~= digits.push('/') + name);
    lemma_decimal_denotes(epoch as nat);
    lemma_decimal_denotes(inst as nat);
    assert(!name.contains('/')) by {
        if name.contains('/') {
            let i = name.index_of('/');
            if i < "staged-epoch-"@.len() {
                assert("staged-epoch-"@[i] == '/');
            } else {
                assert(is_digit(decimal(epoch as nat)[i - "staged-epoch-"@.len()]));
            }
        }
    }
    lemma_last_position_before(digits, '/', name);
    assert(rest.take(digits.len() as int) =~= digits);
    assert(rest.skip(digits.len() as int + 1) =~= name);
}

/// A text that has the parts of the key of one instance is that key.
proof fn lemma_instance_key_built(key: Seq<char>, rest: Seq<char>, inst: u64, epoch: u64)
    requires
        has_prefix(key, "sources/0/inst-"@),
        rest == key.skip("sources/0/inst-"@.len() as int),
        0 <= last_position(rest, '/') < rest.len(),
        rest[last_position(rest, '/')] == '/',
        rest.take(last_position(rest, '/')) == decimal(inst as nat),
        rest.skip(last_position(rest, '/') + 1) == "staged-epoch-"@ + decimal(epoch as nat),
    ensures
        key == staged_epoch_key_of(inst as nat, epoch as nat),
{
    let head = "sources/0/inst-"@;
    let slash = "/staged-epoch-"@;
    let name = "staged-epoch-"@;
    let d = decimal(inst as nat);
    let e = decimal(epoch as nat);
    let at = last_position(rest, '/');
    assert(slash =~= seq!['/'] + name) by {
        reveal_strlit("/staged-epoch-");
        reveal_strlit("staged-epoch-");
    }
    assert(rest =~= rest.take(at) + seq!['/'] + rest.skip(at + 1));
    assert(d + seq!['/'] + (name + e) =~= d + (seq!['/'] + name) + e);
    assert(key =~= head + rest) by {
        assert(key.take(head.len() as int) == head);
    }
    assert(head + (d + slash + e) =~= head + d + slash + e);
}

/// The offsets that several stored objects hold together; of a partition that occurs twice, the
/// last one.
pub open spec fn united_offsets(objects: Seq<Seq<u8>>) -> Map<(Seq<char>, i32), i64>
    decreases objects.len(),
{
    if objects.len() == 0 {
        Map::empty()
    } else {
        united_offsets(objects.drop_last()).union_prefer_right(stored_offsets(Some(objects.last())))
    }
}

/// The bytes of several objects.
pub open spec fn object_bytes(objects: Seq<Vec<u8>>) -> Seq<Seq<u8>> {
    objects.map_values(|o: Vec<u8>| o@)
}

/// The offsets that the instances of the source have staged for an epoch, all together.
pub fn epoch_offsets(objects: &[Vec<u8>]) -> (offsets: AssocMap<TopicPartition, i64>)
    ensures
        offsets@ == united_offsets(object_bytes(objects@)),
{
    let ghost all = object_bytes(objects@);
    let mut offsets: AssocMap<TopicPartition, i64> = AssocMap::new();
    let mut i: usize = 0;
    assert(all.take(0) =~= Seq::<Seq<u8>>::empty());
    while i < objects.len()
        invariant
            i <= objects@.len() == all.len(),
            all == object_bytes(objects@),
            offsets@ == united_offsets(all.take(i as int)),
        decreases objects@.len() - i,
    {
        assert(all.take(i + 1).drop_last() =~= all.take(i as int));
        assert(all.take(i + 1).last() == objects@[i as int]@);
        offsets.extend(decode_offsets(Some(objects[i].as_slice())));
        i = i + 1;
    }
    assert(all.take(i as int) =~= all);
    offsets
}

/// What an instance of the source stages for an epoch is found under that epoch, and under no
/// other.
pub proof fn law_staged_offsets_are_found(inst: u64, epoch: u64, other: u64)
    ensures
        is_staged_key(staged_epoch_key_of(inst as nat, epoch as nat), epoch),
        is_staged_key(shared_staged_key(epoch), epoch),
        is_staged_key(staged_epoch_key_of(inst as nat, epoch as nat), other) ==> other == epoch,
        is_staged_key(shared_staged_key(epoch), other) ==> other == epoch,
{
    reveal_strlit("/staged-epoch-");
    reveal_strlit("sources/0/staged-epoch-");
    let keys = seq![
        staged_epoch_key_of(inst as nat, epoch as nat),
        shared_staged_key(epoch),
    ];
    assert forall|k: int| 0 <= k < 2 && is_staged_key(#[trigger] keys[k], other) implies other
        == epoch by {
        let key = keys[k];
        let head = if k == 0 {
            "sources/0/inst-"@ + decimal(inst as nat) + "/staged-epoch-"@
        } else {
            "sources/0/staged-epoch-"@
        };
        assert(key =~= head + decimal(epoch as nat));
        if key == shared_staged_key(other) {
            lemma_digits_behind(head, epoch, "sources/0/staged-epoch-"@, other);
        } else {
            let j = choose|j: u64| key == #[trigger] staged_epoch_key_of(j as nat, other as nat);
            lemma_digits_behind(
                head,
                epoch,
                "sources/0/inst-"@ + decimal(j as nat) + "/staged-epoch-"@,
                other,
            );
        }
    }
    assert(keys[0] == staged_epoch_key_of(inst as nat, epoch as nat));
    assert(keys[1] == shared_staged_key(epoch));
}

/// A number that stands behind a text that ends in a dash is determined by the whole.
proof fn lemma_digits_behind(a: Seq<char>, m: u64, b: Seq<char>, n: u64)
    requires
        a.len() > 0,
        b.len() > 0,
        a.last() == '-',
        b.last() == '-',
        a + decimal(m as nat) == b + decimal(n as nat),
    ensures
        m == n,
{
    let x = decimal(m as nat);
    let y = decimal(n as nat);
    lemma_decimal_denotes(m as nat);
    lemma_decimal_denotes(n as nat);
    let whole = a + x;
    assert(whole.len() == (b + y).len());
    if x.len() < y.len() {
        assert(whole[a.len() - 1] == '-');
        assert((b + y)[a.len() - 1] == y[a.len() - 1 - b.len()]);
        assert(is_digit(y[a.len() - 1 - b.len()]));
    } else if y.len() < x.len() {
        assert((b + y)[b.len() - 1] == '-');
        assert(whole[b.len() - 1] == x[b.len() - 1 - a.len()]);
        assert(is_digit(x[b.len() - 1 - a.len()]));
    } else {
        assert(x =~= whole.skip(a.len() as int));
        assert(y =~= (b + y).skip(b.len() as int));
        lemma_decimal_injective(m as nat, n as nat);
    }
}

/// Where no partition is read by two instances, the offsets of an epoch hold for each instance what
/// it has staged.
pub proof fn law_epoch_offsets_cover_every_instance(
    objects: Seq<Seq<u8>>,
    inst: int,
    tp: (Seq<char>, i32),
)
    requires
        0 <= inst < objects.len(),
        stored_offsets(Some(objects[inst])).contains_key(tp),
        forall|k: int|
            0 <= k < objects.len() && k != inst ==> !stored_offsets(
                Some(#[trigger] objects[k]),
            ).contains_key(tp),
    ensures
        united_offsets(objects).contains_key(tp),
        united_offsets(objects)[tp] == stored_offsets(Some(objects[inst]))[tp],
    decreases objects.len(),
{
    let before = objects.drop_last();
    if inst < objects.len() - 1 {
        assert(before[inst] == objects[inst]);
        assert forall|k: int| 0 <= k < before.len() && k != inst implies !stored_offsets(
            Some(#[trigger] before[k]),
        ).contains_key(tp) by {
            assert(before[k] == objects[k]);
        }
        law_epoch_offsets_cover_every_instance(before, inst, tp);
        assert(!stored_offsets(Some(objects[objects.len() - 1])).contains_key(tp));
    }
}

/// Whether a transaction is open after the given steps, where `open` says whether one was before.
pub open spec fn transaction_open(steps: Seq<SinkStep>, open: bool) -> bool
    decreases steps.len(),
{
    if steps.len() == 0 {
        open
    } else {
        match steps.last() {
            SinkStep::BeginTransaction => true,
            SinkStep::CommitTransaction => false,
            _ => transaction_open(steps.drop_last(), open),
        }
    }
}

/// An exactly-once sink has a transaction open whenever it consumes rows of an epoch, and each
/// epoch commits its records in the same transaction as the offsets staged for it.
pub proof fn law_records_commit_with_their_offsets(epoch: u64, offsets: bool)
    ensures
        transaction_open(start_steps(true), false),
        transaction_open(marker_steps(true, SinkMarker::Checkpoint { epoch }, offsets), true),
        offsets ==> marker_steps(true, SinkMarker::Checkpoint { epoch }, offsets)[0] == (
        SinkStep::SendOffsets { epoch }),
        offsets ==> marker_steps(true, SinkMarker::Checkpoint { epoch }, offsets)[1]
            == SinkStep::CommitTransaction,
{
    let start = start_steps(true);
    assert(start.last() == SinkStep::BeginTransaction);
    let steps = marker_steps(true, SinkMarker::Checkpoint { epoch }, offsets);
    assert(steps.last() == SinkStep::Acknowledge);
    assert(steps.drop_last().last() == SinkStep::BeginTransaction);
    reveal_with_fuel(transaction_open, 3);
}

/// A sink acknowledges an epoch, or the end of the data, only behind the step that makes its
/// records durable.
pub proof fn law_acknowledged_is_durable(exactly_once: bool, marker: SinkMarker, offsets: bool)
    requires
        marker != SinkMarker::Other,
    ensures
        ({
            let steps = marker_steps(exactly_once, marker, offsets);
            &&& steps.last() == SinkStep::Acknowledge
            &&& forall|i: int|
                0 <= i < steps.len() && #[trigger] steps[i] == SinkStep::Acknowledge ==> i
                    == steps.len() - 1
            &&& exists|i: int|
                0 <= i < steps.len() - 1 && (#[trigger] steps[i] == SinkStep::Flush || steps[i]
                    == SinkStep::CommitTransaction)
        }),
{
    let steps = marker_steps(exactly_once, marker, offsets);
    match marker {
        SinkMarker::Checkpoint { epoch } => {
            if exactly_once {
                let k: int = if offsets {
                    1
                } else {
                    0
                };
                assert(steps[k] == SinkStep::CommitTransaction);
            } else {
                assert(steps[0] == SinkStep::Flush);
            }
        },
        _ => {
            assert(steps[0] == SinkStep::Flush || steps[0] == SinkStep::CommitTransaction);
        },
    }
}

/// What the user sets of the producer counts before anything that the sink sets.
pub proof fn law_user_settings_of_the_sink_win(m: SinkModel, name: Seq<char>)
    requires
        m.extra.contains_key(name),
    ensures
        m.producer_config().contains_key(name),
        m.producer_config()[name] == m.extra[name],
{
}

/// What the sink sets of the producer where the user does not. Exactly once means transactions under
/// a name of the topic and the partition of the sink, so that sinks do not share one; at least once
/// means none.
pub proof fn law_sink_settings(m: SinkModel)
    ensures
        ({
            let config = m.producer_config();
            let sets = |name: Seq<char>, value: Seq<char>|
                m.extra.contains_key(name) || (config.contains_key(name) && config[name] == value);
            let lacks = |name: Seq<char>| m.extra.contains_key(name) || !config.contains_key(name);
            &&& sets("bootstrap.servers"@, m.bootstrap_servers)
            &&& sets("linger.ms"@, "5"@)
            &&& sets("queue.buffering.max.messages"@, "2000000"@)
            &&& sets("compression.type"@, "lz4"@)
            &&& m.exactly_once ==> {
                &&& sets(
                    "transactional.id"@,
                    "vajra-sink-"@ + m.topic + "-"@ + decimal(m.sink_partition as nat),
                )
                &&& sets("enable.idempotence"@, "true"@)
                &&& sets("transaction.timeout.ms"@, "120000"@)
            }
            &&& !m.exactly_once ==> {
                &&& lacks("transactional.id"@)
                &&& lacks("enable.idempotence"@)
                &&& lacks("transaction.timeout.ms"@)
            }
        }),
{
    reveal_strlit("bootstrap.servers");
    reveal_strlit("linger.ms");
    reveal_strlit("queue.buffering.max.messages");
    reveal_strlit("compression.type");
    reveal_strlit("transactional.id");
    reveal_strlit("enable.idempotence");
    reveal_strlit("transaction.timeout.ms");
    assert("bootstrap.servers"@.len() == 17 && "linger.ms"@.len() == 9
        && "queue.buffering.max.messages"@.len() == 28 && "compression.type"@.len() == 16
        && "transactional.id"@.len() == 16 && "enable.idempotence"@.len() == 18
        && "transaction.timeout.ms"@.len() == 22);
    assert("compression.type"@[0] == 'c' && "transactional.id"@[0] == 't');
}

/// Offsets of an epoch that are staged by several instances are all there, and nothing else is; of
/// one partition in several objects the last counts.
pub proof fn law_epoch_offsets_are_the_union(objects: Seq<Seq<u8>>, tp: (Seq<char>, i32))
    ensures
        united_offsets(objects).contains_key(tp) <==> exists|k: int|
            0 <= k < objects.len() && stored_offsets(Some(#[trigger] objects[k])).contains_key(tp),
        forall|k: int|
            0 <= k < objects.len() && stored_offsets(Some(#[trigger] objects[k])).contains_key(tp)
                && (forall|j: int|
                k < j < objects.len() ==> !stored_offsets(
                    Some(#[trigger] objects[j]),
                ).contains_key(tp)) ==> united_offsets(objects)[tp] == stored_offsets(
                Some(objects[k]),
            )[tp],
    decreases objects.len(),
{
    if objects.len() > 0 {
        let rest = objects.drop_last();
        let n = objects.len() - 1;
        law_epoch_offsets_are_the_union(rest, tp);
        assert(objects[n] == objects.last());
        if united_offsets(rest).contains_key(tp) {
            let k = choose|k: int|
                0 <= k < rest.len() && stored_offsets(Some(#[trigger] rest[k])).contains_key(tp);
            assert(objects[k] == rest[k]);
        }
        if exists|k: int|
            0 <= k < objects.len() && stored_offsets(Some(#[trigger] objects[k])).contains_key(
                tp,
            ) {
            let k = choose|k: int|
                0 <= k < objects.len() && stored_offsets(
                    Some(#[trigger] objects[k]),
                ).contains_key(tp);
            if k < n {
                assert(rest[k] == objects[k]);
            }
        }
        assert forall|k: int|
            0 <= k < objects.len() && stored_offsets(Some(#[trigger] objects[k])).contains_key(tp)
                && (forall|j: int|
                k < j < objects.len() ==> !stored_offsets(
                    Some(#[trigger] objects[j]),
                ).contains_key(tp)) implies united_offsets(objects)[tp] == stored_offsets(
            Some(objects[k]),
        )[tp] by {
            if k < n {
                assert(rest[k] == objects[k]);
                assert(!stored_offsets(Some(objects[n])).contains_key(tp));
                assert forall|j: int| k < j < rest.len() implies !stored_offsets(
                    Some(#[trigger] rest[j]),
                ).contains_key(tp) by {
                    assert(rest[j] == objects[j]);
                }
            }
        }
    }
}

/// A sink starts with transactions where it writes exactly once and with nothing otherwise; a marker
/// commits or flushes exactly once, sends offsets only where there are any and only for the epoch of
/// a checkpoint, and a transaction is open again after a checkpoint but not at the end.
pub proof fn law_markers_commit_once(exactly_once: bool, marker: SinkMarker, offsets: bool)
    ensures
        exactly_once ==> start_steps(true) == seq![
            SinkStep::InitTransactions,
            SinkStep::BeginTransaction,
        ],
        start_steps(false).len() == 0,
        ({
            let steps = marker_steps(exactly_once, marker, offsets);
            &&& marker == SinkMarker::Other ==> steps.len() == 0
            &&& !exactly_once ==> forall|i: int|
                0 <= i < steps.len() ==> #[trigger] steps[i] == SinkStep::Flush || steps[i]
                    == SinkStep::Acknowledge
            &&& exactly_once ==> forall|i: int|
                0 <= i < steps.len() ==> #[trigger] steps[i] != SinkStep::Flush
            &&& forall|i: int|
                0 <= i < steps.len() && #[trigger] steps[i] is SendOffsets ==> i == 0 && offsets
                    && exactly_once && marker is Checkpoint && steps[i] == (SinkStep::SendOffsets {
                    epoch: marker->epoch,
                })
            &&& offsets && exactly_once && marker is Checkpoint ==> steps[0] is SendOffsets
            &&& forall|i: int, j: int|
                0 <= i < steps.len() && 0 <= j < steps.len() && #[trigger] steps[i]
                    == SinkStep::CommitTransaction && #[trigger] steps[j]
                    == SinkStep::CommitTransaction ==> i == j
            &&& exactly_once && marker is Checkpoint ==> transaction_open(steps, true)
            &&& exactly_once && marker is EndOfData ==> !transaction_open(steps, true)
            &&& forall|i: int|
                0 <= i < steps.len() ==> #[trigger] steps[i] != SinkStep::InitTransactions
        }),
{
    reveal_with_fuel(transaction_open, 5);
    let steps = marker_steps(exactly_once, marker, offsets);
    if exactly_once && marker is Checkpoint {
        if offsets {
            assert(steps =~= seq![
                SinkStep::SendOffsets { epoch: marker->epoch },
                SinkStep::CommitTransaction,
                SinkStep::BeginTransaction,
                SinkStep::Acknowledge,
            ]);
        } else {
            assert(steps =~= seq![
                SinkStep::CommitTransaction,
                SinkStep::BeginTransaction,
                SinkStep::Acknowledge,
            ]);
        }
    }
}

} // verus!
