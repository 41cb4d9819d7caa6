//! The Kafka table format: checks and options of sources and sinks.

use vstd::prelude::*;

use crate::assoc::AssocMap;
use crate::kafka::options::{
    are_read, option_pairs, text_map, KafkaOptionsError, KafkaReadOptions,
};
use crate::kafka::sink::{KafkaSinkError, KafkaSinkExec, SinkModel};
use crate::text;
use crate::text::{has_prefix, lowercase};

verus! {

/// The Kafka table format.
#[derive(Debug)]
pub struct KafkaTableFormat;

/// What a table definition asks for besides its options.
#[derive(Debug, Clone, Copy, PartialEq, Eq, Structural)]
pub struct TableLayout {
    pub has_constraints: bool,
    pub is_partitioned: bool,
    pub is_bucketed: bool,
    pub is_sorted: bool,
}

/// What a write asks for besides its options.
#[derive(Debug, Clone, Copy, PartialEq, Eq, Structural)]
pub struct WriteLayout {
    pub is_streaming: bool,
    pub is_append: bool,
    pub is_partitioned: bool,
    pub is_bucketed: bool,
    pub is_sorted: bool,
}

/// Why a Kafka table cannot be read or written.
#[derive(Debug)]
pub enum KafkaFormatError {
    ConstraintsNotSupported,
    PartitioningNotSupported,
    BucketingNotSupported,
    OnlyStreamingWrites,
    OnlyAppendMode,
    SinkPartitioningNotSupported,
    SinkBucketingNotSupported,
    Options(KafkaOptionsError),
    Sink(KafkaSinkError),
}

/// What the layout of a source is refused for.
pub open spec fn source_refusal(layout: TableLayout) -> Option<KafkaFormatError> {
    if layout.has_constraints {
        Some(KafkaFormatError::ConstraintsNotSupported)
    } else if layout.is_partitioned {
        Some(KafkaFormatError::PartitioningNotSupported)
    } else if layout.is_bucketed || layout.is_sorted {
        Some(KafkaFormatError::BucketingNotSupported)
    } else {
        None
    }
}

/// What the layout of a write is refused for.
pub open spec fn sink_refusal(layout: WriteLayout) -> Option<KafkaFormatError> {
    if !layout.is_streaming {
        Some(KafkaFormatError::OnlyStreamingWrites)
    } else if !layout.is_append {
        Some(KafkaFormatError::OnlyAppendMode)
    } else if layout.is_partitioned {
        Some(KafkaFormatError::SinkPartitioningNotSupported)
    } else if layout.is_bucketed || layout.is_sorted {
        Some(KafkaFormatError::SinkBucketingNotSupported)
    } else {
        None
    }
}

/// What an option name of a sink, in lower case, selects.
#[derive(Debug, Clone, Copy, PartialEq, Eq, Structural)]
pub enum SinkOption {
    BootstrapServers,
    Topic,
    ValueColumn,
    KeyColumn,
    /// An option that is for the sink and not for the Kafka client.
    Reserved,
    /// An option of the Kafka client.
    Client,
    Other,
}

/// What an option name of a sink, in lower case, selects.
pub open spec fn sink_option(name: Seq<char>) -> SinkOption {
    if name == "kafka.bootstrap.servers"@ || name == "bootstrap.servers"@ || name
        == "bootstrapservers"@ {
        SinkOption::BootstrapServers
    } else if name == "topic"@ {
        SinkOption::Topic
    } else if name == "value"@ || name == "valuecolumn"@ || name == "value.column"@ {
        SinkOption::ValueColumn
    } else if name == "key"@ || name == "keycolumn"@ || name == "key.column"@ {
        SinkOption::KeyColumn
    } else if name == "checkpointlocation"@ || name == "path"@ {
        SinkOption::Reserved
    } else if has_prefix(name, "kafka."@) {
        SinkOption::Client
    } else {
        SinkOption::Other
    }
}

fn classify_sink_option(name: &str) -> (kind: SinkOption)
    ensures
        kind == sink_option(name@),
{
    if text::str_eq(name, "kafka.bootstrap.servers") || text::str_eq(name, "bootstrap.servers")
        || text::str_eq(name, "bootstrapservers") {
        SinkOption::BootstrapServers
    } else if text::str_eq(name, "topic") {
        SinkOption::Topic
    } else if text::str_eq(name, "value") || text::str_eq(name, "valuecolumn") || text::str_eq(
        name,
        "value.column",
    ) {
        SinkOption::ValueColumn
    } else if text::str_eq(name, "key") || text::str_eq(name, "keycolumn") || text::str_eq(
        name,
        "key.column",
    ) {
        SinkOption::KeyColumn
    } else if text::str_eq(name, "checkpointlocation") || text::str_eq(name, "path") {
        SinkOption::Reserved
    } else if text::starts_with(name, "kafka.") {
        SinkOption::Client
    } else {
        SinkOption::Other
    }
}

/// The parameters that sink options set.
#[verifier::ext_equal]
pub struct SinkOptionsModel {
    pub bootstrap_servers: Seq<char>,
    pub topic: Seq<char>,
    pub value_col: Option<Seq<char>>,
    pub key_col: Option<Seq<char>>,
    pub extra: Map<Seq<char>, Seq<char>>,
}

/// The parameters after the options, one after the other.
pub open spec fn sink_options(options: Seq<(Seq<char>, Seq<char>)>) -> SinkOptionsModel
    decreases options.len(),
{
    if options.len() == 0 {
        SinkOptionsModel {
            bootstrap_servers: Seq::empty(),
            topic: Seq::empty(),
            value_col: None,
            key_col: None,
            extra: Map::empty(),
        }
    } else {
        let m = sink_options(options.drop_last());
        let name = lowercase(options.last().0);
        let value = options.last().1;
        match sink_option(name) {
            SinkOption::BootstrapServers => SinkOptionsModel { bootstrap_servers: value, ..m },
            SinkOption::Topic => SinkOptionsModel { topic: value, ..m },
            SinkOption::ValueColumn => SinkOptionsModel { value_col: Some(value), ..m },
            SinkOption::KeyColumn => SinkOptionsModel { key_col: Some(value), ..m },
            SinkOption::Reserved => m,
            SinkOption::Client => SinkOptionsModel { extra: m.extra.insert(name.skip(6), value), ..m },
            SinkOption::Other => m,
        }
    }
}

/// The sink that options ask for.
pub open spec fn sink_of_options(options: Seq<(Seq<char>, Seq<char>)>) -> SinkModel {
    let m = sink_options(options);
    SinkModel {
        bootstrap_servers: m.bootstrap_servers,
        topic: m.topic,
        value_col: m.value_col,
        key_col: m.key_col,
        extra: m.extra,
        exactly_once: false,
        group_id: None,
        checkpoint_location: None,
        sink_partition: 0,
    }
}

impl KafkaTableFormat {
    /// The name of the format.
    pub fn name(&self) -> (name: &str)
        ensures
            name@ == "kafka"@,
    {
        "kafka"
    }

    /// The options of a source, where its layout is supported.
    pub fn create_source(&self, layout: TableLayout, options: Vec<(String, String)>) -> (result:
        Result<KafkaReadOptions, KafkaFormatError>)
        ensures
            match result {
                Ok(o) => source_refusal(layout) is None && exists|nanos: u32| #[trigger]
                    are_read(option_pairs(options@), nanos, Ok::<_, KafkaOptionsError>(o)),
                Err(KafkaFormatError::Options(e)) => source_refusal(layout) is None && exists|
                    nanos: u32,
                | #[trigger]
                    are_read(option_pairs(options@), nanos, Err::<KafkaReadOptions, _>(e)),
                Err(e) => source_refusal(layout) == Some(e),
            },
    {
        if layout.has_constraints {
            return Err(KafkaFormatError::ConstraintsNotSupported);
        }
        if layout.is_partitioned {
            return Err(KafkaFormatError::PartitioningNotSupported);
        }
        if layout.is_bucketed || layout.is_sorted {
            return Err(KafkaFormatError::BucketingNotSupported);
        }
        match KafkaReadOptions::from_options(options) {
            Ok(o) => Ok(o),
            Err(e) => Err(KafkaFormatError::Options(e)),
        }
    }

    /// The sink that a write asks for, where its layout is supported.
    pub fn create_writer(&self, layout: WriteLayout, options: Vec<(String, String)>) -> (result: Result<
        KafkaSinkExec,
        KafkaFormatError,
    >)
        ensures
            ({
                let wanted = sink_of_options(option_pairs(options@));
                match result {
                    Ok(sink) => sink_refusal(layout) is None && wanted.valid() && sink@ == wanted,
                    Err(KafkaFormatError::Sink(e)) => {
                        &&& sink_refusal(layout) is None
                        &&& !wanted.valid()
                        &&& e == if wanted.bootstrap_servers.len() == 0 {
                            KafkaSinkError::MissingBootstrapServers
                        } else {
                            KafkaSinkError::MissingTopic
                        }
                    },
                    Err(e) => sink_refusal(layout) == Some(e),
                }
            }),
    {
        if !layout.is_streaming {
            return Err(KafkaFormatError::OnlyStreamingWrites);
        }
        if !layout.is_append {
            return Err(KafkaFormatError::OnlyAppendMode);
        }
        if layout.is_partitioned {
            return Err(KafkaFormatError::SinkPartitioningNotSupported);
        }
        if layout.is_bucketed || layout.is_sorted {
            return Err(KafkaFormatError::SinkBucketingNotSupported);
        }
        let ghost pairs = option_pairs(options@);
        let mut bootstrap_servers = String::new();
        let mut topic = String::new();
        let mut value_col: Option<String> = None;
        let mut key_col: Option<String> = None;
        let mut extra: AssocMap<String, String> = AssocMap::new();
        let mut i: usize = 0;
        proof {
            assert(pairs.take(0) =~= Seq::<(Seq<char>, Seq<char>)>::empty());
            assert(text_map(extra@) =~= Map::<Seq<char>, Seq<char>>::empty());
        }
        while i < options.len()
            invariant
                i <= options@.len(),
                pairs == option_pairs(options@),
                sink_options(pairs.take(i as int)) == (SinkOptionsModel {
                    bootstrap_servers: bootstrap_servers@,
                    topic: topic@,
                    value_col: crate::kafka::options::optional_text(value_col),
                    key_col: crate::kafka::options::optional_text(key_col),
                    extra: text_map(extra@),
                }),
            decreases options@.len() - i,
        {
            let ghost before = text_map(extra@);
            proof {
                assert(pairs.take(i + 1).drop_last() =~= pairs.take(i as int));
                assert(pairs.take(i + 1).last() == (options@[i as int].0@, options@[i as int].1@));
            }
            let lower = text::to_lowercase(options[i].0.as_str());
            let value = options[i].1.clone();
            match classify_sink_option(lower.as_str()) {
                SinkOption::BootstrapServers => {
                    bootstrap_servers = value;
                },
                SinkOption::Topic => {
                    topic = value;
                },
                SinkOption::ValueColumn => {
                    value_col = Some(value);
                },
                SinkOption::KeyColumn => {
                    key_col = Some(value);
                },
                SinkOption::Reserved => {},
                SinkOption::Client => {
                    if let Some(name) = text::strip_prefix(lower.as_str(), "kafka.") {
                        proof {
                            reveal_strlit("kafka.");
                        }
                        extra.insert(name, value);
                        assert(text_map(extra@) =~= before.insert(lower@.skip(6), value@));
                    }
                },
                SinkOption::Other => {},
            }
            i = i + 1;
        }
        assert(pairs.take(i as int) =~= pairs);
        match KafkaSinkExec::try_new(
            bootstrap_servers,
            topic,
            value_col,
            key_col,
            extra,
            false,
            None,
            None,
            0,
        ) {
            Ok(sink) => Ok(sink),
            Err(e) => Err(KafkaFormatError::Sink(e)),
        }
    }
}

/// A source takes a plain layout only, and names the first thing that is not plain.
pub proof fn law_sources_take_plain_layouts(layout: TableLayout)
    ensures
        source_refusal(layout) is None <==> !layout.has_constraints && !layout.is_partitioned
            && !layout.is_bucketed && !layout.is_sorted,
        source_refusal(layout) == Some(KafkaFormatError::ConstraintsNotSupported)
            <==> layout.has_constraints,
        source_refusal(layout) == Some(KafkaFormatError::PartitioningNotSupported)
            <==> !layout.has_constraints && layout.is_partitioned,
        source_refusal(layout) == Some(KafkaFormatError::BucketingNotSupported)
            <==> !layout.has_constraints && !layout.is_partitioned && (layout.is_bucketed
            || layout.is_sorted),
{
}

/// A sink takes streams that append to a plain layout, and names the first thing that is otherwise.
pub proof fn law_sinks_take_appending_streams(layout: WriteLayout)
    ensures
        sink_refusal(layout) is None <==> layout.is_streaming && layout.is_append
            && !layout.is_partitioned && !layout.is_bucketed && !layout.is_sorted,
        sink_refusal(layout) == Some(KafkaFormatError::OnlyStreamingWrites)
            <==> !layout.is_streaming,
        sink_refusal(layout) == Some(KafkaFormatError::OnlyAppendMode) <==> layout.is_streaming
            && !layout.is_append,
        sink_refusal(layout) == Some(KafkaFormatError::SinkPartitioningNotSupported)
            <==> layout.is_streaming && layout.is_append && layout.is_partitioned,
        sink_refusal(layout) == Some(KafkaFormatError::SinkBucketingNotSupported)
            <==> layout.is_streaming && layout.is_append && !layout.is_partitioned && (
        layout.is_bucketed || layout.is_sorted),
{
}

/// The names of a sink's options: every other name with the prefix of the client's settings is one
/// of those, and whatever is left is passed over.
pub proof fn law_sink_option_names(name: Seq<char>)
    ensures
        sink_option(name) == SinkOption::BootstrapServers <==> name == "kafka.bootstrap.servers"@
            || name == "bootstrap.servers"@ || name == "bootstrapservers"@,
        sink_option(name) == SinkOption::Topic <==> name == "topic"@,
        sink_option(name) == SinkOption::ValueColumn <==> name == "value"@ || name
            == "valuecolumn"@ || name == "value.column"@,
        sink_option(name) == SinkOption::KeyColumn <==> name == "key"@ || name == "keycolumn"@
            || name == "key.column"@,
        sink_option(name) == SinkOption::Reserved <==> name == "checkpointlocation"@ || name
            == "path"@,
        sink_option(name) == SinkOption::Client <==> name != "kafka.bootstrap.servers"@
            && name.len() >= 6 && name.take(6) == "kafka."@,
{
    reveal_strlit("kafka.bootstrap.servers");
    reveal_strlit("bootstrap.servers");
    reveal_strlit("bootstrapservers");
    reveal_strlit("topic");
    reveal_strlit("value");
    reveal_strlit("valuecolumn");
    reveal_strlit("value.column");
    reveal_strlit("key");
    reveal_strlit("keycolumn");
    reveal_strlit("key.column");
    reveal_strlit("checkpointlocation");
    reveal_strlit("path");
    reveal_strlit("kafka.");
    assert("bootstrap.servers"@.len() == 17 && "kafka.bootstrap.servers"@.len() == 23);
    assert("topic"@[0] == 't' && "value"@[0] == 'v' && "valuecolumn"@[0] == 'v'
        && "value.column"@[0] == 'v' && "key"@.len() == 3 && "keycolumn"@.len() == 9
        && "key.column"@.len() == 10);
    assert("topic"@.len() == 5 && "value"@.len() == 5 && "valuecolumn"@.len() == 11
        && "value.column"@.len() == 12 && "checkpointlocation"@.len() == 18 && "path"@.len() == 4
        && "bootstrapservers"@.len() == 16);
    assert("kafka."@[0] == 'k' && "kafka."@[1] == 'a' && "key"@[1] == 'e' && "keycolumn"@[1] == 'e'
        && "key.column"@[1] == 'e' && "checkpointlocation"@[0] == 'c' && "path"@[0] == 'p'
        && "bootstrap.servers"@[0] == 'b' && "bootstrapservers"@[0] == 'b'
        && "kafka.bootstrap.servers"@[0] == 'k');
    if name.len() >= 6 && name.take(6) == "kafka."@ {
        assert(name[0] == name.take(6)[0]);
        assert(name[1] == name.take(6)[1]);
    }
}

/// Of the options of one kind the last counts, and what no option gives stays empty.
pub proof fn law_last_sink_option_counts(options: Seq<(Seq<char>, Seq<char>)>, i: int)
    requires
        -1 <= i < options.len(),
    ensures
        ({
            let m = sink_options(options);
            &&& is_last_of(options, SinkOption::Topic, i) ==> m.topic == if i < 0 {
                Seq::<char>::empty()
            } else {
                options[i].1
            }
            &&& is_last_of(options, SinkOption::BootstrapServers, i) ==> m.bootstrap_servers
                == if i < 0 {
                Seq::<char>::empty()
            } else {
                options[i].1
            }
            &&& is_last_of(options, SinkOption::ValueColumn, i) ==> m.value_col == if i < 0 {
                None
            } else {
                Some(options[i].1)
            }
            &&& is_last_of(options, SinkOption::KeyColumn, i) ==> m.key_col == if i < 0 {
                None
            } else {
                Some(options[i].1)
            }
        }),
    decreases options.len(),
{
    if options.len() > 0 {
        let rest = options.drop_last();
        let n = options.len() - 1;
        assert forall|kind: SinkOption| #[trigger] is_last_of(options, kind, i) && i < n implies {
            &&& is_last_of(rest, kind, i)
            &&& sink_option(lowercase(options.last().0)) != kind
        } by {
            assert(sink_option(lowercase(options[n].0)) != kind);
            assert forall|k: int| i < k < rest.len() implies sink_option(
                lowercase((#[trigger] rest[k]).0),
            ) != kind by {
                assert(rest[k] == options[k]);
            }
            if i >= 0 {
                assert(rest[i] == options[i]);
            }
        }
        if i < n {
            law_last_sink_option_counts(rest, i);
        }
    }
}

/// Whether an option is the last of its kind; none is for -1.
pub open spec fn is_last_of(options: Seq<(Seq<char>, Seq<char>)>, kind: SinkOption, i: int) -> bool {
    &&& i >= 0 ==> sink_option(lowercase(options[i].0)) == kind
    &&& forall|k: int|
        i < k < options.len() ==> sink_option(lowercase((#[trigger] options[k]).0)) != kind
}

proof fn lemma_last_setting(options: Seq<(Seq<char>, Seq<char>)>, name: Seq<char>)
    requires
        options.len() > 0,
    ensures
        ({
            let all = sink_options(options).extra;
            let before = sink_options(options.drop_last()).extra;
            if gives_setting(options.last(), name) {
                all.contains_key(name) && all[name] == options.last().1
            } else {
                all.contains_key(name) == before.contains_key(name) && (before.contains_key(name)
                    ==> all[name] == before[name])
            }
        }),
{
    lemma_setting_name(lowercase(options.last().0), name);
}

/// The value of a client's setting after some options, or that it has none.
pub open spec fn is_setting(
    options: Seq<(Seq<char>, Seq<char>)>,
    name: Seq<char>,
    value: Option<Seq<char>>,
) -> bool {
    match value {
        Some(v) => exists|i: int|
            {
                &&& 0 <= i < options.len()
                &&& gives_setting(#[trigger] options[i], name)
                &&& options[i].1 == v
                &&& forall|k: int|
                    i < k < options.len() ==> !gives_setting(#[trigger] options[k], name)
            },
        None => forall|k: int|
            0 <= k < options.len() ==> !gives_setting(#[trigger] options[k], name),
    }
}

/// The client's settings of a sink are the options with the prefix, under the names behind it, with
/// the value of the last of each name.
pub proof fn law_client_settings_lose_their_prefix(
    options: Seq<(Seq<char>, Seq<char>)>,
    name: Seq<char>,
)
    ensures
        is_setting(
            options,
            name,
            if sink_options(options).extra.contains_key(name) {
                Some(sink_options(options).extra[name])
            } else {
                None
            },
        ),
    decreases options.len(),
{
    if options.len() > 0 {
        let rest = options.drop_last();
        let n = options.len() - 1;
        law_client_settings_lose_their_prefix(rest, name);
        lemma_last_setting(options, name);
        let all = sink_options(options).extra;
        let before = sink_options(rest).extra;
        if gives_setting(options.last(), name) {
            assert(gives_setting(options[n], name) && options[n].1 == all[name]);
        } else if before.contains_key(name) {
            let i = choose|i: int|
                {
                    &&& 0 <= i < rest.len()
                    &&& gives_setting(#[trigger] rest[i], name)
                    &&& rest[i].1 == before[name]
                    &&& forall|k: int|
                        i < k < rest.len() ==> !gives_setting(#[trigger] rest[k], name)
                };
            assert(options[i] == rest[i]);
            assert forall|k: int| i < k < options.len() implies !gives_setting(
                #[trigger] options[k],
                name,
            ) by {
                if k < n {
                    assert(options[k] == rest[k]);
                }
            }
        } else {
            assert forall|k: int| 0 <= k < options.len() implies !gives_setting(
                #[trigger] options[k],
                name,
            ) by {
                if k < n {
                    assert(options[k] == rest[k]);
                }
            }
        }
    }
}

/// Whether an option is the client's setting with a name.
pub open spec fn gives_setting(option: (Seq<char>, Seq<char>), name: Seq<char>) -> bool {
    lowercase(option.0) == "kafka."@ + name && lowercase(option.0) != "kafka.bootstrap.servers"@
}

proof fn lemma_setting_name(full: Seq<char>, name: Seq<char>)
    ensures
        full == "kafka."@ + name && full != "kafka.bootstrap.servers"@ <==> sink_option(full)
            == SinkOption::Client && full.skip(6) == name,
{
    law_sink_option_names(full);
    reveal_strlit("kafka.");
    if full == "kafka."@ + name {
        assert(full.take(6) =~= "kafka."@);
        assert(full.skip(6) =~= name);
    }
    if full.len() >= 6 && full.take(6) == "kafka."@ && full.skip(6) == name {
        assert(full =~= full.take(6) + full.skip(6));
    }
}

/// A sink of options writes at least once, to partition numbers from zero on, until it is told
/// otherwise.
pub proof fn law_sink_of_options_takes_the_options(options: Seq<(Seq<char>, Seq<char>)>)
    ensures
        ({
            let m = sink_options(options);
            let s = sink_of_options(options);
            &&& s.topic == m.topic && s.bootstrap_servers == m.bootstrap_servers && s.value_col
                == m.value_col && s.key_col == m.key_col && s.extra == m.extra
            &&& !s.exactly_once && s.group_id is None && s.checkpoint_location is None
                && s.sink_partition == 0
        }),
{
}

} // verus!
