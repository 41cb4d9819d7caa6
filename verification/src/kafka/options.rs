//! Options of the Kafka source.

use std::time::{Duration, SystemTime, UNIX_EPOCH};

use vstd::prelude::*;

use crate::assoc::AssocMap;
use crate::text;
use crate::text::{
    all_digits, decimal, has_prefix, is_digit, lemma_decimal_denotes, lowercase, number, parse_unsigned,
    zeros,
};

verus! {

/// The options of a Kafka source.
#[derive(Debug)]
pub struct KafkaReadOptions {
    /// The bootstrap servers.
    pub bootstrap_servers: String,
    /// A comma-separated list of topics.
    pub subscribe: Option<String>,
    /// A pattern that topics match.
    pub subscribe_pattern: Option<String>,
    /// Where to start without committed offsets: `earliest` or `latest`.
    pub starting_offsets: String,
    /// The consumer group.
    pub group_id: String,
    /// The largest number of records in a batch.
    pub max_batch_size: usize,
    /// How long to wait for records, in milliseconds.
    pub fetch_timeout_ms: u64,
    /// Client options, without their `kafka.` prefix.
    pub extra: AssocMap<String, String>,
}

/// The options of a Kafka source as values.
#[verifier::ext_equal]
pub struct ReadOptionsModel {
    pub bootstrap_servers: Seq<char>,
    pub subscribe: Option<Seq<char>>,
    pub subscribe_pattern: Option<Seq<char>>,
    pub starting_offsets: Seq<char>,
    pub group_id: Seq<char>,
    pub max_batch_size: usize,
    pub fetch_timeout_ms: u64,
    pub extra: Map<Seq<char>, Seq<char>>,
}

/// A map of texts with the values as character sequences.
pub open spec fn text_map(map: Map<Seq<char>, String>) -> Map<Seq<char>, Seq<char>> {
    map.map_values(|s: String| s@)
}

/// The characters of an optional text.
pub open spec fn optional_text(s: Option<String>) -> Option<Seq<char>> {
    match s {
        Some(s) => Some(s@),
        None => None,
    }
}

impl View for KafkaReadOptions {
    type V = ReadOptionsModel;

    open spec fn view(&self) -> ReadOptionsModel {
        ReadOptionsModel {
            bootstrap_servers: self.bootstrap_servers@,
            subscribe: optional_text(self.subscribe),
            subscribe_pattern: optional_text(self.subscribe_pattern),
            starting_offsets: self.starting_offsets@,
            group_id: self.group_id@,
            max_batch_size: self.max_batch_size,
            fetch_timeout_ms: self.fetch_timeout_ms,
            extra: text_map(self.extra@),
        }
    }
}

/// What an option name, in lower case, selects.
#[derive(Debug, Clone, Copy, PartialEq, Eq, Structural)]
pub enum ReadOption {
    BootstrapServers,
    Subscribe,
    SubscribePattern,
    StartingOffsets,
    GroupId,
    GroupIdPrefix,
    MaxBatchSize,
    FetchTimeout,
    /// An option of the Kafka client.
    Client,
    /// An option that is ignored.
    Other,
}

/// What an option name, in lower case, selects.
pub open spec fn read_option(name: Seq<char>) -> ReadOption {
    if name == "kafka.bootstrap.servers"@ || name == "bootstrapservers"@ || name
        == "bootstrap.servers"@ {
        ReadOption::BootstrapServers
    } else if name == "subscribe"@ {
        ReadOption::Subscribe
    } else if name == "subscribepattern"@ {
        ReadOption::SubscribePattern
    } else if name == "startingoffsets"@ || name == "startingoffset"@ {
        ReadOption::StartingOffsets
    } else if name == "group.id"@ {
        ReadOption::GroupId
    } else if name == "groupidprefix"@ {
        ReadOption::GroupIdPrefix
    } else if name == "maxbatchsize"@ || name == "maxoffsetspertrigger"@ || name
        == "maxoffsetspermicrobatch"@ {
        ReadOption::MaxBatchSize
    } else if name == "fetchtimeoutms"@ {
        ReadOption::FetchTimeout
    } else if has_prefix(name, "kafka."@) {
        ReadOption::Client
    } else {
        ReadOption::Other
    }
}

fn classify_read_option(name: &str) -> (kind: ReadOption)
    ensures
        kind == read_option(name@),
{
    if text::str_eq(name, "kafka.bootstrap.servers") || text::str_eq(name, "bootstrapservers")
        || text::str_eq(name, "bootstrap.servers") {
        ReadOption::BootstrapServers
    } else if text::str_eq(name, "subscribe") {
        ReadOption::Subscribe
    } else if text::str_eq(name, "subscribepattern") {
        ReadOption::SubscribePattern
    } else if text::str_eq(name, "startingoffsets") || text::str_eq(name, "startingoffset") {
        ReadOption::StartingOffsets
    } else if text::str_eq(name, "group.id") {
        ReadOption::GroupId
    } else if text::str_eq(name, "groupidprefix") {
        ReadOption::GroupIdPrefix
    } else if text::str_eq(name, "maxbatchsize") || text::str_eq(name, "maxoffsetspertrigger")
        || text::str_eq(name, "maxoffsetspermicrobatch") {
        ReadOption::MaxBatchSize
    } else if text::str_eq(name, "fetchtimeoutms") {
        ReadOption::FetchTimeout
    } else if text::starts_with(name, "kafka.") {
        ReadOption::Client
    } else {
        ReadOption::Other
    }
}

/// Why options are refused.
#[derive(Debug)]
pub enum KafkaOptionsError {
    /// The value of an option is not a number that fits; `reason` are the words of the parser.
    InvalidNumber { option: String, reason: String },
    /// No bootstrap servers are given.
    MissingBootstrapServers,
    /// Neither topics nor a pattern are given.
    MissingSubscription,
}

/// Why options are refused, but for the words of the parser.
#[verifier::ext_equal]
pub enum OptionsErrorModel {
    InvalidNumber { option: Seq<char> },
    MissingBootstrapServers,
    MissingSubscription,
}

impl View for KafkaOptionsError {
    type V = OptionsErrorModel;

    open spec fn view(&self) -> OptionsErrorModel {
        match self {
            KafkaOptionsError::InvalidNumber { option, .. } => OptionsErrorModel::InvalidNumber {
                option: option@,
            },
            KafkaOptionsError::MissingBootstrapServers => {
                OptionsErrorModel::MissingBootstrapServers
            },
            KafkaOptionsError::MissingSubscription => OptionsErrorModel::MissingSubscription,
        }
    }
}

impl KafkaOptionsError {
    /// The message for the user.
    pub fn message(&self) -> (out: String)
        ensures
            out@ == match self {
                KafkaOptionsError::InvalidNumber { option, reason } => "invalid "@ + option@ + ": "@
                    + reason@,
                KafkaOptionsError::MissingBootstrapServers =>
                    "kafka.bootstrap.servers is required for the Kafka source"@,
                KafkaOptionsError::MissingSubscription =>
                    "either 'subscribe' or 'subscribePattern' is required for the Kafka source"@,
            },
    {
        match self {
            KafkaOptionsError::InvalidNumber { option, reason } => {
                let mut out = text::concat("invalid ", option.as_str());
                out.append(": ");
                out.append(reason.as_str());
                out
            },
            KafkaOptionsError::MissingBootstrapServers => {
                "kafka.bootstrap.servers is required for the Kafka source".to_owned()
            },
            KafkaOptionsError::MissingSubscription => {
                "either 'subscribe' or 'subscribePattern' is required for the Kafka source".to_owned()
            },
        }
    }
}

/// A number in at least ten digits.
pub open spec fn ten_digits(n: nat) -> Seq<char> {
    let digits = decimal(n);
    if digits.len() < 10 {
        zeros((10 - digits.len()) as nat) + digits
    } else {
        digits
    }
}

/// The name of a generated consumer group.
pub open spec fn generated_group_id(prefix: Seq<char>, nanos: u32) -> Seq<char> {
    prefix + "-"@ + ten_digits(nanos as nat)
}

/// The options before any was given.
pub open spec fn default_read_options(nanos: u32) -> ReadOptionsModel {
    ReadOptionsModel {
        bootstrap_servers: Seq::empty(),
        subscribe: None,
        subscribe_pattern: None,
        starting_offsets: "latest"@,
        group_id: generated_group_id("vajra"@, nanos),
        max_batch_size: 1000,
        fetch_timeout_ms: 500,
        extra: Map::empty(),
    }
}

/// The options with one more given.
pub open spec fn with_read_option(
    m: ReadOptionsModel,
    key: Seq<char>,
    value: Seq<char>,
    nanos: u32,
) -> Result<ReadOptionsModel, OptionsErrorModel> {
    match read_option(lowercase(key)) {
        ReadOption::BootstrapServers => Ok(ReadOptionsModel { bootstrap_servers: value, ..m }),
        ReadOption::Subscribe => Ok(ReadOptionsModel { subscribe: Some(value), ..m }),
        ReadOption::SubscribePattern => Ok(
            ReadOptionsModel { subscribe_pattern: Some(value), ..m },
        ),
        ReadOption::StartingOffsets => Ok(ReadOptionsModel { starting_offsets: value, ..m }),
        ReadOption::GroupId => Ok(ReadOptionsModel { group_id: value, ..m }),
        ReadOption::GroupIdPrefix => Ok(
            ReadOptionsModel { group_id: generated_group_id(value, nanos), ..m },
        ),
        ReadOption::MaxBatchSize => match parse_unsigned(value, usize::MAX as nat) {
            Some(n) => Ok(ReadOptionsModel { max_batch_size: n as usize, ..m }),
            None => Err(OptionsErrorModel::InvalidNumber { option: key }),
        },
        ReadOption::FetchTimeout => match parse_unsigned(value, u64::MAX as nat) {
            Some(n) => Ok(ReadOptionsModel { fetch_timeout_ms: n as u64, ..m }),
            None => Err(OptionsErrorModel::InvalidNumber { option: "fetchtimeoutms"@ }),
        },
        ReadOption::Client => Ok(
            ReadOptionsModel { extra: m.extra.insert(lowercase(key).skip(6), value), ..m },
        ),
        ReadOption::Other => Ok(m),
    }
}

/// The options with all those given, one after the other.
pub open spec fn with_read_options(
    options: Seq<(Seq<char>, Seq<char>)>,
    nanos: u32,
) -> Result<ReadOptionsModel, OptionsErrorModel>
    decreases options.len(),
{
    if options.len() == 0 {
        Ok(default_read_options(nanos))
    } else {
        match with_read_options(options.drop_last(), nanos) {
            Ok(m) => with_read_option(m, options.last().0, options.last().1, nanos),
            Err(e) => Err(e),
        }
    }
}

/// The options that a list of names and values stands for: the last value of each counts, numbers
/// have to be valid, and servers and a subscription have to be given.
pub open spec fn read_options(
    options: Seq<(Seq<char>, Seq<char>)>,
    nanos: u32,
) -> Result<ReadOptionsModel, OptionsErrorModel> {
    match with_read_options(options, nanos) {
        Ok(m) => if m.bootstrap_servers.len() == 0 {
            Err(OptionsErrorModel::MissingBootstrapServers)
        } else if m.subscribe is None && m.subscribe_pattern is None {
            Err(OptionsErrorModel::MissingSubscription)
        } else {
            Ok(m)
        },
        Err(e) => Err(e),
    }
}

/// A list of names and values.
pub open spec fn option_pairs(options: Seq<(String, String)>) -> Seq<(Seq<char>, Seq<char>)> {
    options.map_values(|o: (String, String)| (o.0@, o.1@))
}

/// Whether this is what reading options gives.
pub open spec fn are_read(
    options: Seq<(Seq<char>, Seq<char>)>,
    nanos: u32,
    result: Result<KafkaReadOptions, KafkaOptionsError>,
) -> bool {
    match result {
        Ok(o) => read_options(options, nanos) == Ok::<ReadOptionsModel, OptionsErrorModel>(o@),
        Err(e) => read_options(options, nanos) == Err::<ReadOptionsModel, OptionsErrorModel>(e@),
    }
}

/// The type `std::time::SystemTime`.
#[verifier::external_type_specification]
#[verifier::external_body]
pub struct ExSystemTime(SystemTime);

/// `SystemTime::now` reads the clock. Nothing is claimed of the time that it gives.
pub assume_specification[ SystemTime::now ]() -> (now: SystemTime)
;

/// `SystemTime::duration_since` the Unix epoch; nothing for a time before it. Which duration it is
/// depends on the clock and is left open.
#[verifier::external_body]
fn since_epoch(time: SystemTime) -> (duration: Option<Duration>) {
    time.duration_since(UNIX_EPOCH).ok()
}

/// `Duration::subsec_nanos` is the part below a second, which is less than a thousand million
/// nanoseconds.
pub assume_specification[ Duration::subsec_nanos ](duration: &Duration) -> (nanos: u32)
    ensures
        nanos < 1_000_000_000,
;

/// `str::parse` of a `usize`: the words of its error, if any. They depend on the width of the number,
/// which is the machine's, and are left open.
#[verifier::external_body]
fn size_error(text: &str) -> (words: String) {
    text.parse::<usize>().map_or_else(|e| e.to_string(), |_| String::new())
}

/// `str::parse` of a `u64`: the words of its error, if any. The words are left open.
#[verifier::external_body]
fn number_error(text: &str) -> (words: String) {
    text.parse::<u64>().map_or_else(|e| e.to_string(), |_| String::new())
}

/// The part of a time below a second; zero for a time before the Unix epoch.
fn subsec_nanos(time: SystemTime) -> (nanos: u32)
    ensures
        nanos < 1_000_000_000,
{
    match since_epoch(time) {
        Some(duration) => duration.subsec_nanos(),
        None => 0,
    }
}

proof fn lemma_options_prefix_fails(options: Seq<(Seq<char>, Seq<char>)>, nanos: u32, n: int)
    requires
        0 <= n <= options.len(),
        with_read_options(options.take(n), nanos) is Err,
    ensures
        with_read_options(options, nanos) == with_read_options(options.take(n), nanos),
    decreases options.len() - n,
{
    if n < options.len() {
        assert(options.take(n + 1).drop_last() =~= options.take(n));
        lemma_options_prefix_fails(options, nanos, n + 1);
    } else {
        assert(options.take(n) =~= options);
    }
}

proof fn lemma_kafka_prefix_len(name: Seq<char>)
    requires
        has_prefix(name, "kafka."@),
    ensures
        "kafka."@.len() == 6,
{
    reveal_strlit("kafka.");
}

impl KafkaReadOptions {
    /// Reads the options of a source. Generated consumer groups are told apart by the clock.
    pub fn from_options(options: Vec<(String, String)>) -> (result: Result<
        Self,
        KafkaOptionsError,
    >)
        ensures
            exists|nanos: u32|
                nanos < 1_000_000_000 && #[trigger] are_read(
                    option_pairs(options@),
                    nanos,
                    result,
                ),
    {
        let nanos: u32 = subsec_nanos(SystemTime::now());
        let ghost pairs = option_pairs(options@);
        let result = Self::from_options_at(options, nanos);
        assert(are_read(pairs, nanos, result));
        result
    }

    /// Reads the options of a source. `nanos` is the sub-second part of the current time, which
    /// tells generated consumer groups apart.
    pub fn from_options_at(options: Vec<(String, String)>, nanos: u32) -> (result: Result<
        Self,
        KafkaOptionsError,
    >)
        ensures
            are_read(option_pairs(options@), nanos, result),
    {
        let ghost pairs = option_pairs(options@);
        let mut out = KafkaReadOptions {
            bootstrap_servers: String::new(),
            subscribe: None,
            subscribe_pattern: None,
            starting_offsets: "latest".to_owned(),
            group_id: Self::group_id_at("vajra", nanos),
            max_batch_size: 1000,
            fetch_timeout_ms: 500,
            extra: AssocMap::new(),
        };
        let mut i: usize = 0;
        proof {
            assert(pairs.take(0) =~= Seq::<(Seq<char>, Seq<char>)>::empty());
            assert(out@.extra =~= Map::<Seq<char>, Seq<char>>::empty());
        }
        while i < options.len()
            invariant
                i <= options@.len(),
                pairs == option_pairs(options@),
                with_read_options(pairs.take(i as int), nanos) == Ok::<
                    ReadOptionsModel,
                    OptionsErrorModel,
                >(out@),
            decreases options@.len() - i,
        {
            let ghost before = out@;
            proof {
                assert(pairs.take(i + 1).drop_last() =~= pairs.take(i as int));
                assert(pairs.take(i + 1).last() == pairs[i as int]);
                assert(pairs[i as int] == (options@[i as int].0@, options@[i as int].1@));
            }
            let lower = text::to_lowercase(options[i].0.as_str());
            let value = options[i].1.clone();
            match classify_read_option(lower.as_str()) {
                ReadOption::BootstrapServers => {
                    out.bootstrap_servers = value;
                },
                ReadOption::Subscribe => {
                    out.subscribe = Some(value);
                },
                ReadOption::SubscribePattern => {
                    out.subscribe_pattern = Some(value);
                },
                ReadOption::StartingOffsets => {
                    out.starting_offsets = value;
                },
                ReadOption::GroupId => {
                    out.group_id = value;
                },
                ReadOption::GroupIdPrefix => {
                    out.group_id = Self::group_id_at(value.as_str(), nanos);
                },
                ReadOption::MaxBatchSize => {
                    match text::parse_u64_up_to(value.as_str(), usize::MAX as u64) {
                        Some(n) => {
                            out.max_batch_size = n as usize;
                        },
                        None => {
                            proof {
                                lemma_options_prefix_fails(pairs, nanos, i + 1);
                            }
                            return Err(
                                KafkaOptionsError::InvalidNumber {
                                    option: options[i].0.clone(),
                                    reason: size_error(value.as_str()),
                                },
                            );
                        },
                    }
                },
                ReadOption::FetchTimeout => {
                    match text::parse_u64(value.as_str()) {
                        Some(n) => {
                            out.fetch_timeout_ms = n;
                        },
                        None => {
                            proof {
                                lemma_options_prefix_fails(pairs, nanos, i + 1);
                            }
                            return Err(
                                KafkaOptionsError::InvalidNumber {
                                    option: "fetchtimeoutms".to_owned(),
                                    reason: number_error(value.as_str()),
                                },
                            );
                        },
                    }
                },
                ReadOption::Client => {
                    if let Some(name) = text::strip_prefix(lower.as_str(), "kafka.") {
                        proof {
                            lemma_kafka_prefix_len(lower@);
                        }
                        out.extra.insert(name, value);
                        assert(out@.extra =~= before.extra.insert(lower@.skip(6), value@));
                    }
                },
                ReadOption::Other => {},
            }
            i = i + 1;
        }
        assert(pairs.take(i as int) =~= pairs);
        if out.bootstrap_servers.as_str().is_empty() {
            return Err(KafkaOptionsError::MissingBootstrapServers);
        }
        if out.subscribe.is_none() && out.subscribe_pattern.is_none() {
            return Err(KafkaOptionsError::MissingSubscription);
        }
        Ok(out)
    }

    /// The name of a generated consumer group: the prefix and the sub-second part of the current
    /// time.
    pub fn generate_group_id(prefix: &str) -> (id: String)
        ensures
            exists|nanos: u32|
                nanos < 1_000_000_000 && id@ == #[trigger] generated_group_id(prefix@, nanos),
    {
        let nanos: u32 = subsec_nanos(SystemTime::now());
        Self::group_id_at(prefix, nanos)
    }

    /// The name of a generated consumer group, by the sub-second part of the current time.
    pub fn group_id_at(prefix: &str, nanos: u32) -> (id: String)
        ensures
            id@ == generated_group_id(prefix@, nanos),
    {
        let mut id = prefix.to_owned();
        id.append("-");
        let digits = text::u64_to_text(nanos as u64);
        let len: usize = digits.as_str().unicode_len();
        let ghost head = id@;
        let mut pad: usize = if len < 10 {
            10 - len
        } else {
            0
        };
        let ghost total = pad as nat;
        while pad > 0
            invariant
                pad <= total,
                id@ == head + zeros((total - pad) as nat),
            decreases pad,
        {
            id.push('0');
            pad = pad - 1;
            assert(id@ =~= head + zeros((total - pad) as nat));
        }
        id.append(digits.as_str());
        assert(id@ =~= generated_group_id(prefix@, nanos));
        id
    }
}

/// Of two values for the same client option the later counts, and each keeps the value of the
/// others.
pub proof fn law_later_client_option_wins(
    m: ReadOptionsModel,
    key: Seq<char>,
    first: Seq<char>,
    second: Seq<char>,
    nanos: u32,
)
    requires
        read_option(lowercase(key)) == ReadOption::Client,
    ensures
        ({
            let once = with_read_option(m, key, first, nanos)->Ok_0;
            let twice = with_read_option(once, key, second, nanos)->Ok_0;
            twice == with_read_option(m, key, second, nanos)->Ok_0
        }),
{
    let name = lowercase(key).skip(6);
    assert(m.extra.insert(name, first).insert(name, second) =~= m.extra.insert(name, second));
}

/// The names of the options: every other name with the prefix of the client's settings is one of
/// those, and whatever is left is passed over.
pub proof fn law_read_option_names(name: Seq<char>)
    ensures
        read_option(name) == ReadOption::BootstrapServers <==> name == "kafka.bootstrap.servers"@
            || name == "bootstrapservers"@ || name == "bootstrap.servers"@,
        read_option(name) == ReadOption::Subscribe <==> name == "subscribe"@,
        read_option(name) == ReadOption::SubscribePattern <==> name == "subscribepattern"@,
        read_option(name) == ReadOption::StartingOffsets <==> name == "startingoffsets"@ || name
            == "startingoffset"@,
        read_option(name) == ReadOption::GroupId <==> name == "group.id"@,
        read_option(name) == ReadOption::GroupIdPrefix <==> name == "groupidprefix"@,
        read_option(name) == ReadOption::MaxBatchSize <==> name == "maxbatchsize"@ || name
            == "maxoffsetspertrigger"@ || name == "maxoffsetspermicrobatch"@,
        read_option(name) == ReadOption::FetchTimeout <==> name == "fetchtimeoutms"@,
        read_option(name) == ReadOption::Client <==> name != "kafka.bootstrap.servers"@
            && name.len() >= 6 && name.take(6) == "kafka."@,
{
    reveal_strlit("kafka.bootstrap.servers");
    reveal_strlit("bootstrapservers");
    reveal_strlit("bootstrap.servers");
    reveal_strlit("subscribe");
    reveal_strlit("subscribepattern");
    reveal_strlit("startingoffsets");
    reveal_strlit("startingoffset");
    reveal_strlit("group.id");
    reveal_strlit("groupidprefix");
    reveal_strlit("maxbatchsize");
    reveal_strlit("maxoffsetspertrigger");
    reveal_strlit("maxoffsetspermicrobatch");
    reveal_strlit("fetchtimeoutms");
    reveal_strlit("kafka.");
    assert("kafka.bootstrap.servers"@.len() == 23 && "bootstrapservers"@.len() == 16
        && "bootstrap.servers"@.len() == 17 && "subscribe"@.len() == 9 && "subscribepattern"@.len()
        == 16 && "startingoffsets"@.len() == 15 && "startingoffset"@.len() == 14
        && "group.id"@.len() == 8 && "groupidprefix"@.len() == 13 && "maxbatchsize"@.len() == 12
        && "maxoffsetspertrigger"@.len() == 20 && "maxoffsetspermicrobatch"@.len() == 23
        && "fetchtimeoutms"@.len() == 14);
    assert("kafka.bootstrap.servers"@[0] == 'k' && "bootstrapservers"@[0] == 'b'
        && "bootstrap.servers"@[0] == 'b' && "subscribe"@[0] == 's' && "subscribepattern"@[0] == 's'
        && "startingoffsets"@[0] == 's' && "startingoffset"@[0] == 's' && "group.id"@[0] == 'g'
        && "groupidprefix"@[0] == 'g' && "maxbatchsize"@[0] == 'm' && "maxoffsetspertrigger"@[0]
        == 'm' && "maxoffsetspermicrobatch"@[0] == 'm' && "fetchtimeoutms"@[0] == 'f'
        && "kafka."@[0] == 'k');
    if name.len() >= 6 && name.take(6) == "kafka."@ {
        assert(name[0] == name.take(6)[0]);
    }
}

/// An option sets what it names, and nothing else.
pub proof fn law_options_set_what_they_name(
    m: ReadOptionsModel,
    key: Seq<char>,
    value: Seq<char>,
    nanos: u32,
)
    ensures
        ({
            let kind = read_option(lowercase(key));
            let result = with_read_option(m, key, value, nanos);
            let set = result->Ok_0;
            let batch = kind == ReadOption::MaxBatchSize;
            let timeout = kind == ReadOption::FetchTimeout;
            &&& result is Err <==> batch && parse_unsigned(value, usize::MAX as nat) is None
                || timeout && parse_unsigned(value, u64::MAX as nat) is None
            &&& result is Ok ==> {
                &&& set.bootstrap_servers == if kind == ReadOption::BootstrapServers {
                    value
                } else {
                    m.bootstrap_servers
                }
                &&& set.subscribe == if kind == ReadOption::Subscribe {
                    Some(value)
                } else {
                    m.subscribe
                }
                &&& set.subscribe_pattern == if kind == ReadOption::SubscribePattern {
                    Some(value)
                } else {
                    m.subscribe_pattern
                }
                &&& set.starting_offsets == if kind == ReadOption::StartingOffsets {
                    value
                } else {
                    m.starting_offsets
                }
                &&& kind != ReadOption::GroupId && kind != ReadOption::GroupIdPrefix
                    ==> set.group_id == m.group_id
                &&& kind == ReadOption::GroupId ==> set.group_id == value
                &&& batch ==> parse_unsigned(value, usize::MAX as nat) == Some(
                    set.max_batch_size as nat,
                )
                &&& !batch ==> set.max_batch_size == m.max_batch_size
                &&& timeout ==> parse_unsigned(value, u64::MAX as nat) == Some(
                    set.fetch_timeout_ms as nat,
                )
                &&& !timeout ==> set.fetch_timeout_ms == m.fetch_timeout_ms
                &&& kind != ReadOption::Client ==> set.extra == m.extra
                &&& kind == ReadOption::Client ==> set.extra == m.extra.insert(
                    lowercase(key).subrange(6, lowercase(key).len() as int),
                    value,
                )
            }
        }),
{
    if read_option(lowercase(key)) == ReadOption::Client {
        law_read_option_names(lowercase(key));
        assert(lowercase(key).subrange(6, lowercase(key).len() as int) =~= lowercase(key).skip(6));
    }
}

/// Options are read one after the other: those of two lists are those of the first, then those of
/// the second; and what follows a bad one does not count.
pub proof fn law_options_are_read_in_order(
    options: Seq<(Seq<char>, Seq<char>)>,
    option: (Seq<char>, Seq<char>),
    nanos: u32,
)
    ensures
        with_read_options(options, nanos) is Err ==> with_read_options(options.push(option), nanos)
            == with_read_options(options, nanos),
        with_read_options(options, nanos) is Ok ==> with_read_options(options.push(option), nanos)
            == with_read_option(
            with_read_options(options, nanos)->Ok_0,
            option.0,
            option.1,
            nanos,
        ),
{
    assert(options.push(option).drop_last() =~= options);
}

/// Options that are read name a server and a subscription; those that lack one are refused.
pub proof fn law_read_options_are_complete(options: Seq<(Seq<char>, Seq<char>)>, nanos: u32)
    ensures
        match read_options(options, nanos) {
            Ok(m) => m.bootstrap_servers.len() > 0 && (m.subscribe is Some
                || m.subscribe_pattern is Some) && with_read_options(options, nanos) == Ok::<
                ReadOptionsModel,
                OptionsErrorModel,
            >(m),
            Err(OptionsErrorModel::MissingBootstrapServers) => with_read_options(
                options,
                nanos,
            ) is Ok && with_read_options(options, nanos)->Ok_0.bootstrap_servers.len() == 0,
            Err(OptionsErrorModel::MissingSubscription) => with_read_options(options, nanos) is Ok
                && with_read_options(options, nanos)->Ok_0.bootstrap_servers.len() > 0
                && with_read_options(options, nanos)->Ok_0.subscribe is None && with_read_options(
                options,
                nanos,
            )->Ok_0.subscribe_pattern is None,
            Err(e) => with_read_options(options, nanos) == Err::<
                ReadOptionsModel,
                OptionsErrorModel,
            >(e),
        },
{
    lemma_number_errors(options, nanos);
}

proof fn lemma_number_errors(options: Seq<(Seq<char>, Seq<char>)>, nanos: u32)
    ensures
        with_read_options(options, nanos) is Err ==> with_read_options(
            options,
            nanos,
        )->Err_0 is InvalidNumber,
    decreases options.len(),
{
    if options.len() > 0 {
        lemma_number_errors(options.drop_last(), nanos);
    }
}

proof fn lemma_zeros_number(n: nat, digits: Seq<char>)
    ensures
        number(zeros(n) + digits) == number(digits),
    decreases digits.len(), n,
{
    if digits.len() > 0 {
        lemma_zeros_number(n, digits.drop_last());
        assert((zeros(n) + digits).drop_last() =~= zeros(n) + digits.drop_last());
        assert((zeros(n) + digits).last() == digits.last());
    } else {
        assert(zeros(n) + digits =~= zeros(n));
        if n > 0 {
            let m = (n - 1) as nat;
            lemma_zeros_number(m, digits);
            assert(zeros(m) + digits =~= zeros(m));
            assert(zeros(n).drop_last() =~= zeros(m));
            assert(zeros(n).last() == '0');
        }
    }
}

/// A generated group is the prefix, a dash and the nanoseconds in ten digits, which read as them; so
/// groups of one prefix differ where the nanoseconds do.
pub proof fn law_generated_groups_show_the_nanoseconds(prefix: Seq<char>, nanos: u32, other: u32)
    ensures
        ({
            let id = generated_group_id(prefix, nanos);
            let tail = id.skip(prefix.len() as int + 1);
            &&& id.len() == prefix.len() + 11
            &&& id.take(prefix.len() as int) == prefix
            &&& id[prefix.len() as int] == '-'
            &&& all_digits(tail)
            &&& number(tail) == nanos
            &&& id == generated_group_id(prefix, other) ==> nanos == other
        }),
{
    reveal_strlit("-");
    lemma_ten_digits(nanos);
    lemma_ten_digits(other);
    let id = generated_group_id(prefix, nanos);
    let from = prefix.len() as int + 1;
    assert(id.skip(from) =~= ten_digits(nanos as nat));
    assert(generated_group_id(prefix, other).skip(from) =~= ten_digits(other as nat));
    assert(id.take(prefix.len() as int) =~= prefix);
}

proof fn lemma_ten_digits(n: u32)
    ensures
        ten_digits(n as nat).len() == 10,
        all_digits(ten_digits(n as nat)),
        number(ten_digits(n as nat)) == n,
{
    let digits = decimal(n as nat);
    lemma_decimal_denotes(n as nat);
    assert(digits.len() <= 10) by {
        reveal_with_fuel(decimal, 11);
    }
    let fill = (10 - digits.len()) as nat;
    lemma_zeros_number(fill, digits);
    let all = ten_digits(n as nat);
    assert(all =~= zeros(fill) + digits);
    assert forall|i: int| 0 <= i < all.len() implies is_digit(#[trigger] all[i]) by {
        if i >= fill {
            assert(all[i] == digits[i - fill]);
        } else {
            assert(all[i] == '0');
        }
    }
}

} // verus!
