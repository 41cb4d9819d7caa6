//! Planning of the Kafka source: schema, client configuration, split assignment and starting
//! offsets.

use vstd::prelude::*;

use crate::assoc::{AssocMap, MapKey};
use crate::kafka::options::{text_map, KafkaReadOptions};
use crate::sorting::{
    lemma_text_before_total, lemma_text_before_transitive, sort, stable_sorted, text_before,
    text_less, Ranked,
};
use crate::text;
use crate::text::{
    decimal, is_digit, lemma_decimal_denotes, lowercase, parse_unsigned, same_ignoring_case, split_on,
    texts, trimmed,
};

verus! {

/// The default byte budget of a batch.
pub const MAX_BATCH_BYTES: usize = 134217728;

/// How long a bounded read waits without progress, in milliseconds.
pub const BOUNDED_STALL_TOLERANCE_MS: u64 = 10_000;

/// How often a realtime source hands out its rows, in milliseconds.
pub const LOW_LATENCY_FLUSH_MS: u64 = 5;

/// The number that a setting asks for where it is a number of at least `floor`, else the default.
pub open spec fn setting_or(
    setting: Option<Seq<char>>,
    max: nat,
    floor: nat,
    default: nat,
) -> nat {
    match setting {
        Some(s) => match parse_unsigned(s, max) {
            Some(n) => if n >= floor {
                n
            } else {
                default
            },
            None => default,
        },
        None => default,
    }
}

/// The characters of an optional text.
pub open spec fn setting_text(setting: Option<&str>) -> Option<Seq<char>> {
    match setting {
        Some(s) => Some(s@),
        None => None,
    }
}

fn number_setting(setting: Option<&str>, max: u64, floor: u64, default: u64) -> (value: u64)
    ensures
        value == setting_or(setting_text(setting), max as nat, floor as nat, default as nat),
{
    match setting {
        Some(s) => match text::parse_u64_up_to(s, max) {
            Some(n) => if n >= floor {
                n
            } else {
                default
            },
            None => default,
        },
        None => default,
    }
}

/// The byte budget of a batch for the value of its setting; a budget below one mebibyte is
/// ignored.
pub fn max_batch_bytes(setting: Option<&str>) -> (bytes: usize)
    ensures
        bytes == setting_or(
            setting_text(setting),
            usize::MAX as nat,
            1048576,
            MAX_BATCH_BYTES as nat,
        ),
{
    number_setting(setting, usize::MAX as u64, 1048576, MAX_BATCH_BYTES as u64) as usize
}

/// The prefetch limits of a consumer.
#[derive(Debug, Clone, Copy, PartialEq, Eq, Structural)]
pub struct PrefetchLimits {
    pub kbytes: u64,
    pub messages: u64,
}

/// The prefetch limits for the values of their settings.
pub fn prefetch_limits(kbytes: Option<&str>, messages: Option<&str>) -> (limits: PrefetchLimits)
    ensures
        limits.kbytes == setting_or(setting_text(kbytes), u64::MAX as nat, 1024, 65536),
        limits.messages == setting_or(setting_text(messages), u64::MAX as nat, 1000, 400_000),
{
    PrefetchLimits {
        kbytes: number_setting(kbytes, u64::MAX, 1024, 65536),
        messages: number_setting(messages, u64::MAX, 1000, 400_000),
    }
}

/// The way in which a source reads.
#[derive(Debug, Clone, Copy, PartialEq, Eq, Structural)]
pub enum ReadMode {
    /// Up to the current end of each partition.
    Bounded,
    /// Continuously, with an epoch per interval.
    Realtime,
    /// Continuously, with offsets kept by the broker.
    Plain,
}

/// The mode that a source reads in.
pub open spec fn read_mode(bounded: bool, realtime_interval_ms: Option<u64>) -> ReadMode {
    if bounded {
        ReadMode::Bounded
    } else if realtime_interval_ms is Some {
        ReadMode::Realtime
    } else {
        ReadMode::Plain
    }
}

/// The client configuration for high throughput, which user options may override.
pub open spec fn with_throughput_defaults(
    config: Map<Seq<char>, Seq<char>>,
    stats: bool,
    limits: PrefetchLimits,
) -> Map<Seq<char>, Seq<char>> {
    (if stats {
        config.insert("statistics.interval.ms"@, "2000"@)
    } else {
        config
    }).insert("queued.max.messages.kbytes"@, decimal(limits.kbytes as nat)).insert(
        "queued.min.messages"@,
        decimal(limits.messages as nat),
    ).insert("fetch.message.max.bytes"@, "10485760"@).insert("fetch.wait.max.ms"@, "50"@).insert(
        "socket.receive.buffer.bytes"@,
        "16777216"@,
    )
}

/// Where a consumer without offsets starts.
pub open spec fn offset_reset(starting_offsets: Seq<char>) -> Seq<char> {
    if lowercase(starting_offsets) == "earliest"@ {
        "earliest"@
    } else {
        "latest"@
    }
}

/// The client configuration of a consumer: the settings of the mode, the throughput defaults, and
/// the user's client options over both.
pub open spec fn consumer_config_of(
    options: KafkaReadOptions,
    mode: ReadMode,
    stats: bool,
    limits: PrefetchLimits,
) -> Map<Seq<char>, Seq<char>> {
    let base = Map::<Seq<char>, Seq<char>>::empty().insert(
        "bootstrap.servers"@,
        options.bootstrap_servers@,
    ).insert("group.id"@, options.group_id@);
    let config = match mode {
        ReadMode::Bounded => with_throughput_defaults(
            base.insert("enable.auto.commit"@, "false"@),
            stats,
            limits,
        ),
        ReadMode::Realtime => with_throughput_defaults(
            base.insert("enable.auto.commit"@, "false"@).insert("enable.partition.eof"@, "true"@),
            stats,
            limits,
        ),
        ReadMode::Plain => with_throughput_defaults(
            base.insert("enable.auto.commit"@, "true"@).insert("session.timeout.ms"@, "6000"@),
            stats,
            limits,
        ).insert("auto.offset.reset"@, offset_reset(options.starting_offsets@)),
    };
    config.union_prefer_right(text_map(options.extra@))
}

/// Sets one entry of a client configuration.
pub(crate) fn set_entry(config: &mut AssocMap<String, String>, name: &str, value: &str)
    ensures
        text_map(final(config)@) == text_map(old(config)@).insert(name@, value@),
{
    let owned = value.to_owned();
    config.insert(name.to_owned(), owned);
    assert(text_map(config@) =~= text_map(old(config)@).insert(name@, value@));
}

/// Sets the client configuration for high throughput.
pub fn apply_consumer_throughput_defaults(
    config: &mut AssocMap<String, String>,
    stats: bool,
    limits: PrefetchLimits,
)
    ensures
        text_map(final(config)@) == with_throughput_defaults(text_map(old(config)@), stats, limits),
{
    if stats {
        set_entry(config, "statistics.interval.ms", "2000");
    }
    let kbytes = text::u64_to_text(limits.kbytes);
    set_entry(config, "queued.max.messages.kbytes", kbytes.as_str());
    let messages = text::u64_to_text(limits.messages);
    set_entry(config, "queued.min.messages", messages.as_str());
    set_entry(config, "fetch.message.max.bytes", "10485760");
    set_entry(config, "fetch.wait.max.ms", "50");
    set_entry(config, "socket.receive.buffer.bytes", "16777216");
}

/// Sets each of the user's client options.
pub fn apply_extra(config: &mut AssocMap<String, String>, extra: &AssocMap<String, String>)
    ensures
        text_map(final(config)@) == text_map(old(config)@).union_prefer_right(text_map(extra@)),
{
    let n: usize = extra.len();
    let mut i: usize = 0;
    let ghost before = text_map(config@);
    let ghost es = extra.entries();
    assert(before =~= before.union_prefer_right(text_map(crate::assoc::entries_map(es.take(0)))));
    while i < n
        invariant
            n == extra.entries().len(),
            i <= n,
            es == extra.entries(),
            crate::assoc::distinct_keys(es),
            text_map(config@) == before.union_prefer_right(
                text_map(crate::assoc::entries_map(es.take(i as int))),
            ),
        decreases n - i,
    {
        let entry = extra.entry(i);
        let ghost prior = text_map(config@);
        set_entry(config, entry.0.as_str(), entry.1.as_str());
        proof {
            let taken = es.take(i as int);
            assert(es.take(i + 1) =~= taken.push(es[i as int]));
            assert(crate::assoc::distinct_keys(taken)) by {
                assert forall|a: int, b: int|
                    0 <= a < taken.len() && 0 <= b < taken.len() && (#[trigger] taken[a]).0.model()
                        == (#[trigger] taken[b]).0.model() implies a == b by {
                    assert(es[a].0.model() == es[b].0.model());
                }
            }
            if crate::assoc::has_key(taken, es[i as int].0.model()) {
                let j = crate::assoc::key_index(taken, es[i as int].0.model());
                assert(es[j].0.model() == es[i as int].0.model());
            }
            crate::assoc::lemma_push_entry(taken, es[i as int]);
            assert(text_map(config@) =~= before.union_prefer_right(
                text_map(crate::assoc::entries_map(es.take(i + 1))),
            ));
        }
        i = i + 1;
    }
    assert(es.take(i as int) =~= es);
}

/// The client configuration of a consumer.
pub fn consumer_config(
    options: &KafkaReadOptions,
    mode: ReadMode,
    stats: bool,
    limits: PrefetchLimits,
) -> (config: AssocMap<String, String>)
    ensures
        text_map(config@) == consumer_config_of(*options, mode, stats, limits),
{
    let mut config: AssocMap<String, String> = AssocMap::new();
    assert(text_map(config@) =~= Map::<Seq<char>, Seq<char>>::empty());
    set_entry(&mut config, "bootstrap.servers", options.bootstrap_servers.as_str());
    set_entry(&mut config, "group.id", options.group_id.as_str());
    match mode {
        ReadMode::Bounded => {
            set_entry(&mut config, "enable.auto.commit", "false");
            apply_consumer_throughput_defaults(&mut config, stats, limits);
        },
        ReadMode::Realtime => {
            set_entry(&mut config, "enable.auto.commit", "false");
            set_entry(&mut config, "enable.partition.eof", "true");
            apply_consumer_throughput_defaults(&mut config, stats, limits);
        },
        ReadMode::Plain => {
            set_entry(&mut config, "enable.auto.commit", "true");
            set_entry(&mut config, "session.timeout.ms", "6000");
            apply_consumer_throughput_defaults(&mut config, stats, limits);
            let lower = text::to_lowercase(options.starting_offsets.as_str());
            if text::str_eq(lower.as_str(), "earliest") {
                set_entry(&mut config, "auto.offset.reset", "earliest");
            } else {
                set_entry(&mut config, "auto.offset.reset", "latest");
            }
        },
    }
    apply_extra(&mut config, &options.extra);
    config
}

/// The trimmed pieces that are not empty.
pub open spec fn non_empty_trimmed(pieces: Seq<Seq<char>>) -> Seq<Seq<char>>
    decreases pieces.len(),
{
    if pieces.len() == 0 {
        Seq::empty()
    } else {
        let before = non_empty_trimmed(pieces.drop_last());
        if trimmed(pieces.last()).len() > 0 {
            before.push(trimmed(pieces.last()))
        } else {
            before
        }
    }
}

/// The topics of a comma-separated list, without those that are empty.
pub fn parse_topics(csv: &str) -> (topics: Vec<String>)
    ensures
        texts(topics@) == non_empty_trimmed(split_on(csv@, ',')),
{
    let pieces = text::split(csv, ',');
    let ghost all = texts(pieces@);
    let mut topics: Vec<String> = Vec::new();
    let mut i: usize = 0;
    assert(all.take(0) =~= Seq::<Seq<char>>::empty());
    assert(texts(topics@) =~= Seq::<Seq<char>>::empty());
    while i < pieces.len()
        invariant
            i <= pieces@.len(),
            all == texts(pieces@),
            texts(topics@) == non_empty_trimmed(all.take(i as int)),
        decreases pieces@.len() - i,
    {
        let ghost before = texts(topics@);
        assert(all.take(i + 1).drop_last() =~= all.take(i as int));
        assert(all.take(i + 1).last() == pieces@[i as int]@);
        let topic = text::trim(pieces[i].as_str());
        if !topic.as_str().is_empty() {
            let ghost view = topic@;
            topics.push(topic);
            assert(texts(topics@) =~= before.push(view));
        }
        i = i + 1;
    }
    assert(all.take(i as int) =~= all);
    topics
}

/// What a source subscribes to.
#[derive(Debug)]
pub enum Subscription {
    Topics(Vec<String>),
    /// A pattern, with the leading `^` by which the client tells it from a topic.
    Pattern(String),
}

/// Whether this is what a plain source subscribes to: the listed topics, else the topics that match
/// the pattern; nothing where neither is given.
pub open spec fn is_subscription(options: KafkaReadOptions, sub: Option<Subscription>) -> bool {
    match options.subscribe {
        Some(csv) => {
            &&& sub matches Some(Subscription::Topics(topics))
            &&& texts(topics@) == split_on(csv@, ',').map_values(|p: Seq<char>| trimmed(p))
        },
        None => match options.subscribe_pattern {
            Some(pattern) => {
                &&& sub matches Some(Subscription::Pattern(p))
                &&& p@ == if text::has_prefix(pattern@, "^"@) {
                    pattern@
                } else {
                    "^"@ + pattern@
                }
            },
            None => sub is None,
        },
    }
}

/// What a plain source subscribes to.
pub fn subscription(options: &KafkaReadOptions) -> (sub: Option<Subscription>)
    ensures
        is_subscription(*options, sub),
{
    if let Some(csv) = &options.subscribe {
        let pieces = text::split(csv.as_str(), ',');
        let ghost all = texts(pieces@);
        let mut topics: Vec<String> = Vec::new();
        let mut i: usize = 0;
        while i < pieces.len()
            invariant
                i <= pieces@.len(),
                all == texts(pieces@),
                topics@.len() == i,
                forall|j: int| 0 <= j < i ==> (#[trigger] topics@[j])@ == trimmed(all[j]),
            decreases pieces@.len() - i,
        {
            assert(all[i as int] == pieces@[i as int]@);
            topics.push(text::trim(pieces[i].as_str()));
            i = i + 1;
        }
        assert(texts(topics@) =~= all.map_values(|p: Seq<char>| trimmed(p)));
        return Some(Subscription::Topics(topics));
    }
    if let Some(pattern) = &options.subscribe_pattern {
        let topic = if text::starts_with(pattern.as_str(), "^") {
            pattern.clone()
        } else {
            text::concat("^", pattern.as_str())
        };
        return Some(Subscription::Pattern(topic));
    }
    None
}

/// A split of the source: one partition of one topic.
#[derive(Debug)]
pub struct Split {
    pub topic: String,
    pub partition: i32,
}

impl Split {
    /// The topic and the partition.
    pub open spec fn pair(self) -> (Seq<char>, i32) {
        (self.topic@, self.partition)
    }
}

impl Ranked for Split {
    open spec fn ranks(&self, other: &Self) -> bool {
        text_before(self.topic@, other.topic@) || (self.topic@ == other.topic@ && self.partition
            <= other.partition)
    }

    proof fn lemma_total(a: &Self, b: &Self) {
        lemma_text_before_total(a.topic@, b.topic@);
    }

    proof fn lemma_transitive(a: &Self, b: &Self, c: &Self) {
        if text_before(a.topic@, b.topic@) && text_before(b.topic@, c.topic@) {
            lemma_text_before_transitive(a.topic@, b.topic@, c.topic@);
        }
    }

    fn ranked(&self, other: &Self) -> (before: bool) {
        if text_less(self.topic.as_str(), other.topic.as_str()) {
            true
        } else {
            self.topic == other.topic && self.partition <= other.partition
        }
    }
}

/// The items at the positions that belong to an instance: those whose position leaves the
/// instance's number as remainder.
pub open spec fn owned<T>(items: Seq<T>, parallelism: int, inst: int) -> Seq<T>
    decreases items.len(),
{
    if items.len() == 0 {
        items
    } else {
        let before = owned(items.drop_last(), parallelism, inst);
        if (items.len() - 1) % parallelism == inst {
            before.push(items.last())
        } else {
            before
        }
    }
}

/// The splits that belong to one of several instances: all splits in a stable order, dealt out
/// one by one.
pub fn owned_splits(splits: Vec<Split>, parallelism: usize, inst: usize) -> (mine: Vec<Split>)
    requires
        parallelism > 0,
    ensures
        mine@ == owned(stable_sorted(splits@), parallelism as int, inst as int),
{
    let all = sort(splits);
    let ghost items = all@;
    let mut rest = all;
    let mut reversed: Vec<Split> = Vec::new();
    while rest.len() > 0
        invariant
            items == rest@ + reversed@.reverse(),
        decreases rest@.len(),
    {
        let ghost before = rest@;
        let ghost taken = reversed@;
        if let Some(x) = rest.pop() {
            reversed.push(x);
            assert(rest@ + reversed@.reverse() =~= before + taken.reverse());
        }
    }
    assert(items =~= reversed@.reverse());
    let n: usize = reversed.len();
    let mut mine: Vec<Split> = Vec::new();
    let mut g: usize = 0;
    assert(items.take(0) =~= Seq::<Split>::empty());
    while reversed.len() > 0
        invariant
            parallelism > 0,
            n == items.len(),
            g + reversed@.len() == n,
            items.skip(g as int) == reversed@.reverse(),
            mine@ == owned(items.take(g as int), parallelism as int, inst as int),
        decreases reversed@.len(),
    {
        let ghost before = reversed@;
        if let Some(split) = reversed.pop() {
            proof {
                assert(before.reverse()[0] == split);
                assert(items.skip(g as int)[0] == items[g as int]);
                assert(items.take(g + 1).drop_last() =~= items.take(g as int));
                assert(items.take(g + 1).last() == split);
                assert forall|k: int| 0 <= k < reversed@.len() implies #[trigger] items.skip(
                    g + 1,
                )[k] == reversed@.reverse()[k] by {
                    assert(items.skip(g as int)[k + 1] == before.reverse()[k + 1]);
                }
                assert(items.skip(g + 1) =~= reversed@.reverse());
            }
            if g % parallelism == inst {
                mine.push(split);
            }
            g = g + 1;
        }
    }
    assert(items.take(g as int) =~= items);
    mine
}

spec fn at_owned_position<T>(items: Seq<T>, parallelism: int, inst: int, x: T) -> bool {
    exists|g: int| 0 <= g < items.len() && g % parallelism == inst && #[trigger] items[g] == x
}

proof fn lemma_owned_positions<T>(items: Seq<T>, parallelism: int, inst: int)
    requires
        parallelism > 0,
    ensures
        forall|g: int|
            0 <= g < items.len() && g % parallelism == inst ==> owned(
                items,
                parallelism,
                inst,
            ).contains(#[trigger] items[g]),
        forall|k: int|
            0 <= k < owned(items, parallelism, inst).len() ==> at_owned_position(
                items,
                parallelism,
                inst,
                #[trigger] owned(items, parallelism, inst)[k],
            ),
    decreases items.len(),
{
    let mine = owned(items, parallelism, inst);
    if items.len() > 0 {
        let prior = items.drop_last();
        let before = owned(prior, parallelism, inst);
        lemma_owned_positions(prior, parallelism, inst);
        assert forall|g: int| 0 <= g < items.len() && g % parallelism == inst implies mine.contains(
            #[trigger] items[g],
        ) by {
            if g < prior.len() {
                assert(before.contains(prior[g]));
                assert(mine[before.index_of(prior[g])] == items[g]);
            } else {
                assert(mine[mine.len() - 1] == items[g]);
            }
        }
        assert forall|k: int| 0 <= k < mine.len() implies at_owned_position(
            items,
            parallelism,
            inst,
            #[trigger] mine[k],
        ) by {
            if k < before.len() {
                assert(at_owned_position(prior, parallelism, inst, before[k]));
                let g = choose|g: int|
                    0 <= g < prior.len() && g % parallelism == inst && #[trigger] prior[g]
                        == before[k];
                assert(items[g] == mine[k]);
            } else {
                assert(items[items.len() - 1] == mine[k]);
            }
        }
    }
}

/// Every split belongs to an instance, and where no split is listed twice, to one only.
pub proof fn law_each_split_has_one_owner(splits: Seq<Split>, parallelism: int, g: int)
    requires
        parallelism > 0,
        0 <= g < splits.len(),
    ensures
        0 <= g % parallelism < parallelism,
        owned(splits, parallelism, g % parallelism).contains(splits[g]),
        splits.no_duplicates() ==> forall|inst: int|
            0 <= inst < parallelism && #[trigger] owned(splits, parallelism, inst).contains(
                splits[g],
            ) ==> inst == g % parallelism,
{
    lemma_owned_positions(splits, parallelism, g % parallelism);
    if splits.no_duplicates() {
        assert forall|inst: int|
            0 <= inst < parallelism && #[trigger] owned(splits, parallelism, inst).contains(
                splits[g],
            ) implies inst == g % parallelism by {
            lemma_owned_positions(splits, parallelism, inst);
            let mine = owned(splits, parallelism, inst);
            let k = mine.index_of(splits[g]);
            assert(at_owned_position(splits, parallelism, inst, mine[k]));
            let h = choose|h: int|
                0 <= h < splits.len() && h % parallelism == inst && #[trigger] splits[h] == mine[k];
            assert(h == g);
        }
    }
}

/// Whether the starting offsets are `earliest`, in any case of letters.
pub fn starts_earliest(starting_offsets: &str) -> (earliest: bool)
    ensures
        earliest == same_ignoring_case(starting_offsets@, "earliest"@),
{
    text::eq_ignore_ascii_case(starting_offsets, "earliest")
}

/// The offset at which a bounded read of a partition starts: the committed one, else an end of
/// the partition.
pub fn start_offset(committed: Option<i64>, earliest: bool, low: i64, high: i64) -> (start: i64)
    ensures
        start == match committed {
            Some(o) => o,
            None => if earliest {
                low
            } else {
                high
            },
        },
{
    match committed {
        Some(o) => o,
        None => if earliest {
            low
        } else {
            high
        },
    }
}

/// The offset at which a realtime read of a partition resumes: the one that the consumer group
/// committed, else the one in the checkpoint; nothing where it starts afresh.
pub fn resume_offset(group: Option<i64>, checkpoint: Option<i64>) -> (resume: Option<i64>)
    ensures
        resume == if group is Some {
            group
        } else {
            checkpoint
        },
{
    match group {
        Some(o) => Some(o),
        None => checkpoint,
    }
}

/// The first epoch of a realtime source: the one behind the committed epoch.
pub fn first_epoch(committed: Option<u64>) -> (epoch: u64)
    requires
        committed is Some ==> committed->0 < u64::MAX,
    ensures
        epoch == match committed {
            Some(e) => e + 1,
            None => 0,
        },
{
    match committed {
        Some(e) => e + 1,
        None => 0,
    }
}

/// How many polls in a row may come back empty before a bounded read gives up.
pub fn max_empty_polls(fetch_timeout_ms: u64) -> (polls: u32)
    ensures
        polls == ({
            let timeout = if fetch_timeout_ms >= 1 {
                fetch_timeout_ms as int
            } else {
                1
            };
            if BOUNDED_STALL_TOLERANCE_MS as int / timeout >= 5 {
                BOUNDED_STALL_TOLERANCE_MS as int / timeout
            } else {
                5
            }
        }),
{
    let timeout: u64 = if fetch_timeout_ms >= 1 {
        fetch_timeout_ms
    } else {
        1
    };
    let polls: u64 = BOUNDED_STALL_TOLERANCE_MS / timeout;
    assert(polls <= BOUNDED_STALL_TOLERANCE_MS) by (nonlinear_arith)
        requires
            timeout >= 1,
            polls == BOUNDED_STALL_TOLERANCE_MS / timeout,
    ;
    if polls >= 5 {
        polls as u32
    } else {
        5
    }
}

/// Whether a bounded read takes buffered records without waiting for more, for the value of the
/// setting that turns this off.
pub fn fast_drain(setting: Option<&str>) -> (fast: bool)
    ensures
        fast == (setting_text(setting) != Some("1"@)),
{
    match setting {
        Some(s) => !text::str_eq(s, "1"),
        None => true,
    }
}

/// Whether each partition has a reader of its own, for the value of the setting that asks for it.
pub fn batch_queue_enabled(setting: Option<&str>) -> (enabled: bool)
    ensures
        enabled == (setting_text(setting) == Some("1"@)),
{
    match setting {
        Some(s) => text::str_eq(s, "1"),
        None => false,
    }
}

/// How often a realtime source hands out its rows: never less often than an epoch ends.
pub fn flush_interval_ms(epoch_interval_ms: u64) -> (ms: u64)
    ensures
        1 <= ms,
        ms <= LOW_LATENCY_FLUSH_MS,
        epoch_interval_ms >= 1 ==> ms <= epoch_interval_ms,
        ms == if epoch_interval_ms == 0 {
            1
        } else if epoch_interval_ms < LOW_LATENCY_FLUSH_MS {
            epoch_interval_ms
        } else {
            LOW_LATENCY_FLUSH_MS
        },
{
    let interval: u64 = if epoch_interval_ms >= 1 {
        epoch_interval_ms
    } else {
        1
    };
    if interval < LOW_LATENCY_FLUSH_MS {
        interval
    } else {
        LOW_LATENCY_FLUSH_MS
    }
}

/// The sum of the partition counts; nothing where one is missing.
pub open spec fn sum_counts(counts: Seq<Option<usize>>) -> Option<nat>
    decreases counts.len(),
{
    if counts.len() == 0 {
        Some(0)
    } else {
        match (sum_counts(counts.drop_last()), counts.last()) {
            (Some(total), Some(n)) => Some(total + n as nat),
            _ => None,
        }
    }
}

proof fn lemma_sum_prefix(counts: Seq<Option<usize>>, n: int)
    requires
        0 <= n <= counts.len(),
        sum_counts(counts) is Some,
    ensures
        sum_counts(counts.take(n)) is Some,
        sum_counts(counts.take(n))->0 <= sum_counts(counts)->0,
    decreases counts.len() - n,
{
    if n < counts.len() {
        lemma_sum_prefix(counts, n + 1);
        assert(counts.take(n + 1).drop_last() =~= counts.take(n));
    } else {
        assert(counts.take(n) =~= counts);
    }
}

/// The number of partitions of all topics, from the number of each where it is known: nothing
/// where one is unknown or there is no partition.
pub fn total_partitions(counts: &[Option<usize>]) -> (total: Option<usize>)
    requires
        sum_counts(counts@) is Some ==> sum_counts(counts@)->0 <= usize::MAX,
    ensures
        total == match sum_counts(counts@) {
            Some(n) => if n > 0 {
                Some(n as usize)
            } else {
                None
            },
            None => None,
        },
{
    let mut i: usize = 0;
    while i < counts.len()
        invariant
            i <= counts@.len(),
            forall|j: int| 0 <= j < i ==> (#[trigger] counts@[j]) is Some,
        decreases counts@.len() - i,
    {
        if counts[i].is_none() {
            proof {
                if sum_counts(counts@) is Some {
                    lemma_sum_prefix(counts@, i + 1);
                    assert(counts@.take(i + 1).last() is None);
                }
            }
            return None;
        }
        i = i + 1;
    }
    let mut total: usize = 0;
    let mut k: usize = 0;
    proof {
        lemma_all_known(counts@);
        assert(counts@.take(0) =~= Seq::<Option<usize>>::empty());
    }
    while k < counts.len()
        invariant
            k <= counts@.len(),
            forall|j: int| 0 <= j < counts@.len() ==> (#[trigger] counts@[j]) is Some,
            sum_counts(counts@) is Some,
            sum_counts(counts@)->0 <= usize::MAX,
            sum_counts(counts@.take(k as int)) == Some(total as nat),
        decreases counts@.len() - k,
    {
        proof {
            assert(counts@.take(k + 1).drop_last() =~= counts@.take(k as int));
            assert(counts@.take(k + 1).last() == counts@[k as int]);
            lemma_sum_prefix(counts@, k + 1);
        }
        if let Some(n) = counts[k] {
            total = total + n;
        }
        k = k + 1;
    }
    assert(counts@.take(k as int) =~= counts@);
    if total > 0 {
        Some(total)
    } else {
        None
    }
}

proof fn lemma_all_known(counts: Seq<Option<usize>>)
    requires
        forall|j: int| 0 <= j < counts.len() ==> (#[trigger] counts[j]) is Some,
    ensures
        sum_counts(counts) is Some,
    decreases counts.len(),
{
    if counts.len() > 0 {
        assert(counts[counts.len() - 1] is Some);
        assert forall|j: int| 0 <= j < counts.drop_last().len() implies (
        #[trigger] counts.drop_last()[j]) is Some by {
            assert(counts[j] is Some);
        }
        lemma_all_known(counts.drop_last());
    }
}

/// The number of instances of a source: one per partition, else as many as the session asks for,
/// but at least one.
pub fn source_parallelism(partitions: Option<usize>, target: usize) -> (parallelism: usize)
    ensures
        parallelism >= 1,
        parallelism == ({
            let wanted = match partitions {
                Some(n) => n,
                None => target,
            };
            if wanted >= 1 {
                wanted
            } else {
                1
            }
        }),
{
    let wanted: usize = match partitions {
        Some(n) => n,
        None => target,
    };
    if wanted >= 1 {
        wanted
    } else {
        1
    }
}

/// A numeric setting counts where it is a number within its limits; otherwise the default does.
pub proof fn law_settings_count_within_their_limits(
    setting: Option<Seq<char>>,
    max: nat,
    floor: nat,
    default: nat,
    n: nat,
)
    ensures
        setting is None ==> setting_or(setting, max, floor, default) == default,
        setting is Some && parse_unsigned(setting->0, max) is None ==> setting_or(
            setting,
            max,
            floor,
            default,
        ) == default,
        setting_or(Some(decimal(n)), max, floor, default) == if floor <= n <= max {
            n
        } else {
            default
        },
{
    lemma_decimal_denotes(n);
    assert(is_digit(decimal(n)[0]));
}

/// A read is bounded where it has to be, else realtime where it has an interval.
pub proof fn law_read_modes(bounded: bool, interval: Option<u64>)
    ensures
        read_mode(bounded, interval) == ReadMode::Bounded <==> bounded,
        read_mode(bounded, interval) == ReadMode::Realtime <==> !bounded && interval is Some,
        read_mode(bounded, interval) == ReadMode::Plain <==> !bounded && interval is None,
{
}

/// What the user sets of the client counts before anything that the source sets, in every mode.
pub proof fn law_user_settings_win(
    options: KafkaReadOptions,
    mode: ReadMode,
    stats: bool,
    limits: PrefetchLimits,
    name: Seq<char>,
)
    requires
        text_map(options.extra@).contains_key(name),
    ensures
        consumer_config_of(options, mode, stats, limits).contains_key(name),
        consumer_config_of(options, mode, stats, limits)[name] == text_map(options.extra@)[name],
{
}

proof fn lemma_config_names()
    ensures
        ({
            let names = seq![
                "bootstrap.servers"@,
                "group.id"@,
                "enable.auto.commit"@,
                "enable.partition.eof"@,
                "auto.offset.reset"@,
                "session.timeout.ms"@,
                "statistics.interval.ms"@,
                "queued.max.messages.kbytes"@,
                "queued.min.messages"@,
                "fetch.message.max.bytes"@,
                "fetch.wait.max.ms"@,
                "socket.receive.buffer.bytes"@,
            ];
            forall|i: int, j: int| 0 <= i < j < 12 ==> #[trigger] names[i] != #[trigger] names[j]
        }),
{
    reveal_strlit("bootstrap.servers");
    reveal_strlit("group.id");
    reveal_strlit("enable.auto.commit");
    reveal_strlit("enable.partition.eof");
    reveal_strlit("auto.offset.reset");
    reveal_strlit("session.timeout.ms");
    reveal_strlit("statistics.interval.ms");
    reveal_strlit("queued.max.messages.kbytes");
    reveal_strlit("queued.min.messages");
    reveal_strlit("fetch.message.max.bytes");
    reveal_strlit("fetch.wait.max.ms");
    reveal_strlit("socket.receive.buffer.bytes");
    let lens = seq![17int, 8, 18, 20, 17, 18, 22, 26, 19, 23, 17, 27];
    let heads = seq!['b', 'g', 'e', 'e', 'a', 's', 's', 'q', 'q', 'f', 'f', 's'];
    let names = seq![
        "bootstrap.servers"@,
        "group.id"@,
        "enable.auto.commit"@,
        "enable.partition.eof"@,
        "auto.offset.reset"@,
        "session.timeout.ms"@,
        "statistics.interval.ms"@,
        "queued.max.messages.kbytes"@,
        "queued.min.messages"@,
        "fetch.message.max.bytes"@,
        "fetch.wait.max.ms"@,
        "socket.receive.buffer.bytes"@,
    ];
    assert("bootstrap.servers"@.len() == 17 && "bootstrap.servers"@[0] == 'b');
    assert("group.id"@.len() == 8);
    assert("enable.auto.commit"@.len() == 18 && "enable.auto.commit"@[0] == 'e');
    assert("enable.partition.eof"@.len() == 20);
    assert("auto.offset.reset"@.len() == 17 && "auto.offset.reset"@[0] == 'a');
    assert("session.timeout.ms"@.len() == 18 && "session.timeout.ms"@[0] == 's');
    assert("statistics.interval.ms"@.len() == 22);
    assert("queued.max.messages.kbytes"@.len() == 26);
    assert("queued.min.messages"@.len() == 19);
    assert("fetch.message.max.bytes"@.len() == 23);
    assert("fetch.wait.max.ms"@.len() == 17 && "fetch.wait.max.ms"@[0] == 'f');
    assert("socket.receive.buffer.bytes"@.len() == 27);
    assert(forall|i: int| 0 <= i < 12 ==> (#[trigger] names[i]).len() == lens[i]);
    assert(forall|i: int|
        0 <= i < 12 && (lens[i] == 17 || lens[i] == 18) ==> (#[trigger] names[i])[0] == heads[i]);
}

/// What the source sets of the client where the user does not: whom to ask and for which group;
/// whether the client itself commits offsets, which it does in the plain mode alone; that the end of
/// a partition is reported in the realtime mode; and how much is fetched ahead.
pub proof fn law_source_settings(
    options: KafkaReadOptions,
    mode: ReadMode,
    stats: bool,
    limits: PrefetchLimits,
)
    ensures
        ({
            let config = consumer_config_of(options, mode, stats, limits);
            let user = text_map(options.extra@);
            let sets = |name: Seq<char>, value: Seq<char>|
                user.contains_key(name) || (config.contains_key(name) && config[name] == value);
            let lacks = |name: Seq<char>| user.contains_key(name) || !config.contains_key(name);
            &&& sets("bootstrap.servers"@, options.bootstrap_servers@)
            &&& sets("group.id"@, options.group_id@)
            &&& sets(
                "enable.auto.commit"@,
                if mode == ReadMode::Plain {
                    "true"@
                } else {
                    "false"@
                },
            )
            &&& mode == ReadMode::Realtime ==> sets("enable.partition.eof"@, "true"@)
            &&& mode != ReadMode::Realtime ==> lacks("enable.partition.eof"@)
            &&& mode == ReadMode::Plain ==> sets("session.timeout.ms"@, "6000"@)
            &&& mode != ReadMode::Plain ==> lacks("session.timeout.ms"@) && lacks(
                "auto.offset.reset"@,
            )
            &&& mode == ReadMode::Plain ==> sets(
                "auto.offset.reset"@,
                if lowercase(options.starting_offsets@) == "earliest"@ {
                    "earliest"@
                } else {
                    "latest"@
                },
            )
            &&& stats ==> sets("statistics.interval.ms"@, "2000"@)
            &&& !stats ==> lacks("statistics.interval.ms"@)
            &&& sets("queued.max.messages.kbytes"@, decimal(limits.kbytes as nat))
            &&& sets("queued.min.messages"@, decimal(limits.messages as nat))
            &&& sets("fetch.message.max.bytes"@, "10485760"@)
            &&& sets("fetch.wait.max.ms"@, "50"@)
            &&& sets("socket.receive.buffer.bytes"@, "16777216"@)
        }),
{
    lemma_config_names();
    let names = seq![
        "bootstrap.servers"@,
        "group.id"@,
        "enable.auto.commit"@,
        "enable.partition.eof"@,
        "auto.offset.reset"@,
        "session.timeout.ms"@,
        "statistics.interval.ms"@,
        "queued.max.messages.kbytes"@,
        "queued.min.messages"@,
        "fetch.message.max.bytes"@,
        "fetch.wait.max.ms"@,
        "socket.receive.buffer.bytes"@,
    ];
    assert(names[0] == "bootstrap.servers"@ && names[1] == "group.id"@ && names[2]
        == "enable.auto.commit"@ && names[3] == "enable.partition.eof"@ && names[4]
        == "auto.offset.reset"@ && names[5] == "session.timeout.ms"@ && names[6]
        == "statistics.interval.ms"@ && names[7] == "queued.max.messages.kbytes"@ && names[8]
        == "queued.min.messages"@ && names[9] == "fetch.message.max.bytes"@ && names[10]
        == "fetch.wait.max.ms"@ && names[11] == "socket.receive.buffer.bytes"@);
}

/// The topics of a list are its pieces without the blanks around them, in order, but for those of
/// which nothing is left.
pub proof fn law_topics_are_the_pieces(pieces: Seq<Seq<char>>)
    ensures
        non_empty_trimmed(pieces) == pieces.map_values(|p: Seq<char>| trimmed(p)).filter(
            |p: Seq<char>| p.len() > 0,
        ),
    decreases pieces.len(),
{
    reveal(Seq::filter);
    let f = |p: Seq<char>| trimmed(p);
    if pieces.len() > 0 {
        law_topics_are_the_pieces(pieces.drop_last());
        assert(pieces.map_values(f).drop_last() =~= pieces.drop_last().map_values(f));
        assert(pieces.map_values(f).last() == trimmed(pieces.last()));
    } else {
        assert(pieces.map_values(f) =~= Seq::<Seq<char>>::empty());
    }
}

/// Whether items are those of a list from a position on, a step apart.
pub open spec fn are_in_step<T>(mine: Seq<T>, items: Seq<T>, step: int, from: int) -> bool {
    &&& forall|k: int| 0 <= k < mine.len() ==> is_in_step(#[trigger] mine[k], items, from + k * step)
    &&& from + mine.len() * step >= items.len()
}

/// Whether an item stands at a position.
pub open spec fn is_in_step<T>(item: T, items: Seq<T>, at: int) -> bool {
    0 <= at < items.len() && items[at] == item
}

proof fn lemma_step(g: int, n: int, inst: int, parallelism: int)
    requires
        0 <= inst < parallelism,
        g <= inst + n * parallelism < g + parallelism,
    ensures
        g % parallelism == inst <==> g == inst + n * parallelism,
{
    let q = g / parallelism;
    vstd::arithmetic::div_mod::lemma_fundamental_div_mod(g, parallelism);
    if g == inst + n * parallelism {
        vstd::arithmetic::div_mod::lemma_fundamental_div_mod_converse(g, parallelism, n, inst);
    }
    if g % parallelism == inst {
        let d = inst + n * parallelism - g;
        assert(d == (n - q) * parallelism) by (nonlinear_arith)
            requires
                d == inst + n * parallelism - g,
                g == parallelism * q + inst,
        ;
        assert(n == q) by (nonlinear_arith)
            requires
                d == (n - q) * parallelism,
                0 <= d < parallelism,
        ;
        assert(d == 0) by (nonlinear_arith)
            requires
                d == (n - q) * parallelism,
                n == q,
        ;
    }
}

/// An instance owns every so manieth item: the one at its own number, and from there each that is as
/// far on as there are instances.
pub proof fn law_owned_items_are_in_step<T>(items: Seq<T>, parallelism: int, inst: int)
    requires
        0 <= inst < parallelism,
    ensures
        are_in_step(owned(items, parallelism, inst), items, parallelism, inst),
    decreases items.len(),
{
    let all = owned(items, parallelism, inst);
    if items.len() > 0 {
        let rest = items.drop_last();
        let g = items.len() - 1;
        let before = owned(rest, parallelism, inst);
        let n = before.len() as int;
        law_owned_items_are_in_step(rest, parallelism, inst);
        if n > 0 {
            let k = n - 1;
            assert(is_in_step(before[k], rest, inst + k * parallelism));
            assert(inst + n * parallelism == inst + k * parallelism + parallelism)
                by (nonlinear_arith)
                requires
                    k == n - 1,
            ;
        } else {
            assert(n * parallelism == 0) by (nonlinear_arith)
                requires
                    n == 0,
            ;
        }
        if inst + n * parallelism < g + parallelism {
            lemma_step(g, n, inst, parallelism);
        } else {
            // only where nothing is owned yet
            assert(n == 0 && g < inst);
            vstd::arithmetic::div_mod::lemma_small_mod(g as nat, parallelism as nat);
        }
        assert(all == if g % parallelism == inst {
            before.push(items.last())
        } else {
            before
        });
        assert((n + 1) * parallelism == n * parallelism + parallelism) by (nonlinear_arith);
        assert forall|k: int| 0 <= k < all.len() implies is_in_step(
            #[trigger] all[k],
            items,
            inst + k * parallelism,
        ) by {
            if k < n {
                assert(all[k] == before[k]);
                assert(is_in_step(before[k], rest, inst + k * parallelism));
            }
        }
    } else {
        assert(all.len() * parallelism == 0) by (nonlinear_arith)
            requires
                all.len() == 0,
        ;
    }
}

/// The number of partitions of all topics is the sum of theirs, known where each is.
pub proof fn law_partition_counts_add_up(a: Seq<Option<usize>>, b: Seq<Option<usize>>)
    ensures
        sum_counts(a + b) == match (sum_counts(a), sum_counts(b)) {
            (Some(m), Some(n)) => Some(m + n),
            _ => None,
        },
        forall|n: usize| #[trigger] sum_counts(seq![Some(n)]) == Some(n as nat),
        sum_counts(seq![None]) is None,
    decreases b.len(),
{
    assert(seq![None::<usize>].drop_last() =~= Seq::<Option<usize>>::empty());
    assert forall|n: usize| #[trigger] sum_counts(seq![Some(n)]) == Some(n as nat) by {
        assert(seq![Some(n)].drop_last() =~= Seq::<Option<usize>>::empty());
        assert(sum_counts(Seq::<Option<usize>>::empty()) == Some(0nat));
    }
    if b.len() == 0 {
        assert(a + b =~= a);
    } else {
        assert((a + b).drop_last() =~= a + b.drop_last());
        law_partition_counts_add_up(a, b.drop_last());
    }
}

} // verus!
