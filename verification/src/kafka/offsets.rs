//! Kafka offsets: checkpoint keys, the durable JSON form and packed in-memory keys.

use std::collections::BTreeMap;

use vstd::prelude::*;

use crate::assoc::{distinct_keys, entries_map, AssocMap, MapKey};
use crate::text;
use crate::text::{
    decimal, is_digit, last_position, law_last_position_is_the_last,
    law_parsed_numbers_are_in_range, lemma_decimal_denotes, lemma_decimal_injective, number,
    parse_signed, signed_decimal,
};

verus! {

/// A partition of a topic.
#[derive(Debug)]
pub struct TopicPartition {
    pub topic: String,
    pub partition: i32,
}

impl MapKey for TopicPartition {
    type Model = (Seq<char>, i32);

    open spec fn model(&self) -> (Seq<char>, i32) {
        (self.topic@, self.partition)
    }

    fn same(&self, other: &Self) -> (same: bool) {
        self.partition == other.partition && self.topic == other.topic
    }
}

/// The checkpoint key of the offsets of one source instance. A single instance has a key of its
/// own shape; each of several instances has a key under its number.
pub open spec fn offset_key_of(suffix: Seq<char>, inst: nat, parallelism: nat) -> Seq<char> {
    if parallelism <= 1 {
        "sources/0/"@ + suffix
    } else {
        "sources/0/inst-"@ + decimal(inst) + "/"@ + suffix
    }
}

/// The checkpoint key of the offsets of one source instance.
pub fn offset_key(suffix: &str, inst: usize, parallelism: usize) -> (key: String)
    ensures
        key@ == offset_key_of(suffix@, inst as nat, parallelism as nat),
{
    if parallelism <= 1 {
        text::concat("sources/0/", suffix)
    } else {
        let mut key = "sources/0/inst-".to_owned();
        text::push_decimal(&mut key, inst as u64);
        key.append("/");
        key.append(suffix);
        key
    }
}

/// The checkpoint key of the offsets that one source instance reached at an epoch.
pub open spec fn staged_epoch_key_of(inst: nat, epoch: nat) -> Seq<char> {
    "sources/0/inst-"@ + decimal(inst) + "/staged-epoch-"@ + decimal(epoch)
}

/// The checkpoint key of the offsets that one source instance reached at an epoch.
pub fn staged_epoch_key(inst: usize, epoch: u64) -> (key: String)
    ensures
        key@ == staged_epoch_key_of(inst as nat, epoch as nat),
{
    let mut key = "sources/0/inst-".to_owned();
    text::push_decimal(&mut key, inst as u64);
    key.append("/staged-epoch-");
    text::push_decimal(&mut key, epoch);
    key
}

/// The checkpoint object that says how many partitions a complete set of offsets covers: its key
/// and its text.
pub fn expected_partitions(total: usize) -> (object: (String, String))
    ensures
        object.0@ == "sources/0/expected"@,
        object.1@ == decimal(total as nat),
{
    ("sources/0/expected".to_owned(), text::u64_to_text(total as u64))
}

/// Packs a topic index and a partition into one key: the index in the upper half.
pub fn pack_tp(idx: u32, part: i32) -> (key: u64)
    ensures
        key == idx as int * 0x1_0000_0000 + if part >= 0 {
            part as int
        } else {
            part + 0x1_0000_0000
        },
{
    let low: u32 = part as u32;
    let key: u64 = ((idx as u64) << 32) | (low as u64);
    assert(key == idx * 0x1_0000_0000 + low) by (bit_vector)
        requires
            key == ((idx as u64) << 32) | (low as u64),
    ;
    assert(low as int == if part >= 0 {
        part as int
    } else {
        part + 0x1_0000_0000
    }) by (bit_vector)
        requires
            low == part as u32,
    ;
    key
}

/// The topic index and the partition of a packed key.
pub fn unpack_tp(k: u64) -> (tp: (u32, i32))
    ensures
        tp.0 == k / 0x1_0000_0000,
        tp.1 as int == if k % 0x1_0000_0000 < 0x8000_0000 {
            (k % 0x1_0000_0000) as int
        } else {
            k % 0x1_0000_0000 - 0x1_0000_0000
        },
{
    let high: u64 = k >> 32;
    assert(high == k / 0x1_0000_0000 && high <= 0xffff_ffff) by (bit_vector)
        requires
            high == k >> 32,
    ;
    let low: u32 = #[verifier::truncate] (k as u32);
    let part: i32 = #[verifier::truncate] (low as i32);
    assert(low == k % 0x1_0000_0000) by (bit_vector)
        requires
            low == k as u32,
    ;
    assert(part as int == if low < 0x8000_0000 {
        low as int
    } else {
        low - 0x1_0000_0000
    }) by (bit_vector)
        requires
            part == low as i32,
    ;
    (high as u32, part)
}

/// The value of a packed key.
pub open spec fn packed(idx: u32, part: i32) -> int {
    idx as int * 0x1_0000_0000 + if part >= 0 {
        part as int
    } else {
        part + 0x1_0000_0000
    }
}

/// The topic index in a packed key.
pub open spec fn unpacked_index(k: int) -> int {
    k / 0x1_0000_0000
}

/// The partition in a packed key.
pub open spec fn unpacked_partition(k: int) -> int {
    if k % 0x1_0000_0000 < 0x8000_0000 {
        k % 0x1_0000_0000
    } else {
        k % 0x1_0000_0000 - 0x1_0000_0000
    }
}

/// Unpacking a packed key gives back the topic index and the partition.
pub proof fn law_unpack_pack(idx: u32, part: i32)
    ensures
        0 <= packed(idx, part) <= u64::MAX,
        unpacked_index(packed(idx, part)) == idx,
        unpacked_partition(packed(idx, part)) == part,
{
}

/// Different topic indices or partitions have different packed keys.
pub proof fn law_pack_is_injective(idx1: u32, part1: i32, idx2: u32, part2: i32)
    requires
        packed(idx1, part1) == packed(idx2, part2),
    ensures
        idx1 == idx2,
        part1 == part2,
{
    law_unpack_pack(idx1, part1);
    law_unpack_pack(idx2, part2);
}

/// The durable name of a partition: topic, colon, partition number.
pub open spec fn entry_text(topic: Seq<char>, partition: i32) -> Seq<char> {
    topic + ":"@ + signed_decimal(partition as int)
}

/// The partition that a durable name denotes: what is before and after its last colon.
pub open spec fn entry_partition(name: Seq<char>) -> Option<(Seq<char>, i32)> {
    let at = last_position(name, ':');
    if at < 0 {
        None
    } else {
        match parse_signed(name.skip(at + 1), i32::MIN as int, i32::MAX as int) {
            Some(p) => Some((name.take(at), p as i32)),
            None => None,
        }
    }
}

/// The durable name of a partition.
pub fn offset_entry_name(topic: &str, partition: i32) -> (name: String)
    ensures
        name@ == entry_text(topic@, partition),
{
    let mut name = topic.to_owned();
    name.append(":");
    text::push_signed_decimal(&mut name, partition as i64);
    name
}

/// The partition that a durable name denotes.
pub fn parse_offset_entry(name: &str) -> (tp: Option<TopicPartition>)
    ensures
        match tp {
            Some(tp) => entry_partition(name@) == Some(tp.model()),
            None => entry_partition(name@) is None,
        },
{
    match text::rsplit_once(name, ':') {
        Some((topic, part)) => match text::parse_i32(part.as_str()) {
            Some(partition) => Some(TopicPartition { topic, partition }),
            None => None,
        },
        None => None,
    }
}

proof fn lemma_last_position_after(topic: Seq<char>, rest: Seq<char>)
    requires
        forall|i: int| 0 <= i < rest.len() ==> #[trigger] rest[i] != ':',
    ensures
        last_position(topic.push(':') + rest, ':') == topic.len(),
    decreases rest.len(),
{
    let s = topic.push(':') + rest;
    if rest.len() == 0 {
        assert(s =~= topic.push(':'));
        assert(s.last() == ':');
    } else {
        assert(s.last() == rest.last());
        assert(rest[rest.len() - 1] != ':');
        assert(s.drop_last() =~= topic.push(':') + rest.drop_last());
        lemma_last_position_after(topic, rest.drop_last());
    }
}

proof fn lemma_signed_decimal_denotes(n: int, min: int, max: int)
    requires
        min <= n <= max,
        min <= 0 <= max,
    ensures
        parse_signed(signed_decimal(n), min, max) == Some(n),
        forall|i: int| 0 <= i < signed_decimal(n).len() ==> #[trigger] signed_decimal(n)[i] != ':',
{
    let s = signed_decimal(n);
    if n < 0 {
        let d = decimal((-n) as nat);
        lemma_decimal_denotes((-n) as nat);
        assert(s[0] == '-');
        assert(s.skip(1) =~= d);
        assert forall|i: int| 0 <= i < s.len() implies #[trigger] s[i] != ':' by {
            if i > 0 {
                assert(s[i] == d[i - 1]);
                assert(is_digit(d[i - 1]));
            }
        }
    } else {
        lemma_decimal_denotes(n as nat);
        assert(is_digit(s[0]));
        assert forall|i: int| 0 <= i < s.len() implies #[trigger] s[i] != ':' by {
            assert(is_digit(s[i]));
        }
    }
}

/// The durable name of a partition denotes that partition, whatever the topic is called.
pub proof fn law_entry_name_denotes_partition(topic: Seq<char>, partition: i32)
    ensures
        entry_partition(entry_text(topic, partition)) == Some((topic, partition)),
{
    let digits = signed_decimal(partition as int);
    let name = entry_text(topic, partition);
    reveal_strlit(":");
    lemma_signed_decimal_denotes(partition as int, i32::MIN as int, i32::MAX as int);
    assert(name =~= topic.push(':') + digits);
    lemma_last_position_after(topic, digits);
    assert(name.take(topic.len() as int) =~= topic);
    assert(name.skip(topic.len() as int + 1) =~= digits);
}

/// The entries of a JSON object of integers as `serde_json` reads it into an ordered map: keys in
/// ascending order; nothing where the bytes are not such an object.
pub uninterp spec fn json_offsets(bytes: Seq<u8>) -> Option<Seq<(Seq<char>, i64)>>;

/// The JSON object that `serde_json` writes for an ordered map of integers.
pub uninterp spec fn offsets_json(offsets: Map<Seq<char>, i64>) -> Seq<u8>;

/// The entries with the keys as character sequences.
pub open spec fn text_pairs(entries: Seq<(String, i64)>) -> Seq<(Seq<char>, i64)> {
    entries.map_values(|e: (String, i64)| (e.0@, e.1))
}

/// `serde_json::from_slice` into a `BTreeMap<String, i64>`: the entries of the object, each key
/// once.
#[verifier::external_body]
fn offsets_from_json(bytes: &[u8]) -> (entries: Option<Vec<(String, i64)>>)
    ensures
        match entries {
            Some(e) => json_offsets(bytes@) == Some(text_pairs(e@)) && distinct_keys(e@),
            None => json_offsets(bytes@) is None,
        },
{
    let map = serde_json::from_slice::<BTreeMap<String, i64>>(bytes).ok()?;
    Some(map.into_iter().collect())
}

/// `serde_json::to_vec` of a `BTreeMap<&str, i64>`, which has no way to fail. Reading the bytes
/// back gives the same entries, each key once.
#[verifier::external_body]
fn offsets_to_json(entries: &Vec<(String, i64)>) -> (bytes: Option<Vec<u8>>)
    requires
        distinct_keys(entries@),
    ensures
        bytes is Some,
        bytes->0@ == offsets_json(entries_map(entries@)),
        json_offsets(bytes->0@) is Some,
        distinct_pairs(json_offsets(bytes->0@)->0),
        pairs_map(json_offsets(bytes->0@)->0) == entries_map(entries@),
{
    let map: BTreeMap<&str, i64> = entries.iter().map(|e| (e.0.as_str(), e.1)).collect();
    serde_json::to_vec(&map).ok()
}

/// Whether no key occurs twice.
pub open spec fn distinct_pairs(pairs: Seq<(Seq<char>, i64)>) -> bool {
    forall|i: int, j: int|
        0 <= i < pairs.len() && 0 <= j < pairs.len() && (#[trigger] pairs[i]).0 == (
        #[trigger] pairs[j]).0 ==> i == j
}

/// The map of the entries; of a key that occurs twice, the last value.
pub open spec fn pairs_map(pairs: Seq<(Seq<char>, i64)>) -> Map<Seq<char>, i64>
    decreases pairs.len(),
{
    if pairs.len() == 0 {
        Map::empty()
    } else {
        pairs_map(pairs.drop_last()).insert(pairs.last().0, pairs.last().1)
    }
}

/// The offsets by partition; entries whose key does not denote a partition are left out, and of
/// keys that denote the same partition the last counts.
pub open spec fn offsets_of_pairs(pairs: Seq<(Seq<char>, i64)>) -> Map<(Seq<char>, i32), i64>
    decreases pairs.len(),
{
    if pairs.len() == 0 {
        Map::empty()
    } else {
        let before = offsets_of_pairs(pairs.drop_last());
        match entry_partition(pairs.last().0) {
            Some(tp) => before.insert(tp, pairs.last().1),
            None => before,
        }
    }
}

/// The offsets that a stored object holds: none where there is no object or it is malformed.
pub open spec fn stored_offsets(bytes: Option<Seq<u8>>) -> Map<(Seq<char>, i32), i64> {
    match bytes {
        Some(b) => match json_offsets(b) {
            Some(pairs) => offsets_of_pairs(pairs),
            None => Map::empty(),
        },
        None => Map::empty(),
    }
}

/// The offsets by partition of a list of named offsets.
pub fn offsets_from_pairs(pairs: &Vec<(String, i64)>) -> (offsets: AssocMap<TopicPartition, i64>)
    ensures
        offsets@ == offsets_of_pairs(text_pairs(pairs@)),
{
    let mut offsets: AssocMap<TopicPartition, i64> = AssocMap::new();
    let ghost all = text_pairs(pairs@);
    let mut i: usize = 0;
    assert(all.take(0) =~= Seq::<(Seq<char>, i64)>::empty());
    while i < pairs.len()
        invariant
            i <= pairs@.len(),
            all == text_pairs(pairs@),
            offsets@ == offsets_of_pairs(all.take(i as int)),
        decreases pairs@.len() - i,
    {
        assert(all.take(i + 1).drop_last() =~= all.take(i as int));
        assert(all.take(i + 1).last() == (pairs@[i as int].0@, pairs@[i as int].1));
        if let Some(tp) = parse_offset_entry(pairs[i].0.as_str()) {
            offsets.insert(tp, pairs[i].1);
        }
        i = i + 1;
    }
    assert(all.take(i as int) =~= all);
    offsets
}

/// The offsets that a stored object holds.
pub fn decode_offsets(bytes: Option<&[u8]>) -> (offsets: AssocMap<TopicPartition, i64>)
    ensures
        offsets@ == stored_offsets(
            match bytes {
                Some(b) => Some(b@),
                None => None,
            },
        ),
{
    match bytes {
        Some(b) => match offsets_from_json(b) {
            Some(pairs) => offsets_from_pairs(&pairs),
            None => AssocMap::new(),
        },
        None => AssocMap::new(),
    }
}

/// The offsets by durable name.
pub open spec fn named_offsets(offsets: Map<(Seq<char>, i32), i64>) -> Map<Seq<char>, i64> {
    Map::new(
        |name: Seq<char>|
            entry_partition(name) is Some && offsets.contains_key(entry_partition(name)->0)
                && entry_text(
                (entry_partition(name)->0).0,
                (entry_partition(name)->0).1,
            ) == name,
        |name: Seq<char>| offsets[entry_partition(name)->0],
    )
}

proof fn lemma_pairs_lookup(pairs: Seq<(Seq<char>, i64)>, i: int)
    requires
        distinct_pairs(pairs),
        0 <= i < pairs.len(),
    ensures
        pairs_map(pairs).contains_key(pairs[i].0),
        pairs_map(pairs)[pairs[i].0] == pairs[i].1,
    decreases pairs.len(),
{
    if i < pairs.len() - 1 {
        let prior = pairs.drop_last();
        assert(distinct_pairs(prior)) by {
            assert forall|a: int, b: int|
                0 <= a < prior.len() && 0 <= b < prior.len() && (#[trigger] prior[a]).0 == (
                #[trigger] prior[b]).0 implies a == b by {
                assert(pairs[a].0 == pairs[b].0);
            }
        }
        lemma_pairs_lookup(prior, i);
        assert(prior[i] == pairs[i]);
        assert(pairs[i].0 != pairs[pairs.len() - 1].0);
    }
}

proof fn lemma_pairs_keys(pairs: Seq<(Seq<char>, i64)>, name: Seq<char>)
    requires
        pairs_map(pairs).contains_key(name),
    ensures
        exists|i: int| 0 <= i < pairs.len() && (#[trigger] pairs[i]).0 == name,
    decreases pairs.len(),
{
    if pairs.len() > 0 {
        if pairs.last().0 == name {
            assert(pairs[pairs.len() - 1].0 == name);
        } else {
            lemma_pairs_keys(pairs.drop_last(), name);
            let i = choose|i: int|
                0 <= i < pairs.drop_last().len() && (#[trigger] pairs.drop_last()[i]).0 == name;
            assert(pairs[i].0 == name);
        }
    }
}

proof fn lemma_named_pairs_prefix(
    pairs: Seq<(Seq<char>, i64)>,
    offsets: Map<(Seq<char>, i32), i64>,
    n: int,
)
    requires
        distinct_pairs(pairs),
        pairs_map(pairs) == named_offsets(offsets),
        0 <= n <= pairs.len(),
    ensures
        forall|tp: (Seq<char>, i32)| #[trigger]
            offsets_of_pairs(pairs.take(n)).contains_key(tp) <==> exists|i: int|
                0 <= i < n && (#[trigger] pairs[i]).0 == entry_text(tp.0, tp.1),
        forall|tp: (Seq<char>, i32)| #[trigger]
            offsets_of_pairs(pairs.take(n)).contains_key(tp) ==> offsets.contains_key(tp)
                && offsets_of_pairs(pairs.take(n))[tp] == offsets[tp],
    decreases n,
{
    if n == 0 {
        assert(pairs.take(0) =~= Seq::<(Seq<char>, i64)>::empty());
    } else {
        lemma_named_pairs_prefix(pairs, offsets, n - 1);
        assert(pairs.take(n).drop_last() =~= pairs.take(n - 1));
        let name = pairs[n - 1].0;
        lemma_pairs_lookup(pairs, n - 1);
        assert(named_offsets(offsets).contains_key(name));
        let tp = entry_partition(name)->0;
        let before = offsets_of_pairs(pairs.take(n - 1));
        let after = offsets_of_pairs(pairs.take(n));
        assert(after == before.insert(tp, pairs[n - 1].1));
        assert forall|x: (Seq<char>, i32)| #[trigger] after.contains_key(x) <==> exists|i: int|
            0 <= i < n && (#[trigger] pairs[i]).0 == entry_text(x.0, x.1) by {
            law_entry_name_denotes_partition(x.0, x.1);
            if x == tp {
                assert(pairs[n - 1].0 == entry_text(x.0, x.1));
            }
            if before.contains_key(x) {
                let i = choose|i: int|
                    0 <= i < n - 1 && (#[trigger] pairs[i]).0 == entry_text(x.0, x.1);
                assert(0 <= i < n && pairs[i].0 == entry_text(x.0, x.1));
            }
            if exists|i: int| 0 <= i < n && (#[trigger] pairs[i]).0 == entry_text(x.0, x.1) {
                let i = choose|i: int|
                    0 <= i < n && (#[trigger] pairs[i]).0 == entry_text(x.0, x.1);
                if i == n - 1 {
                    assert(x == tp);
                } else {
                    assert(before.contains_key(x));
                }
            }
        }
    }
}

proof fn lemma_named_pairs_give_offsets(
    pairs: Seq<(Seq<char>, i64)>,
    offsets: Map<(Seq<char>, i32), i64>,
)
    requires
        distinct_pairs(pairs),
        pairs_map(pairs) == named_offsets(offsets),
    ensures
        offsets_of_pairs(pairs) == offsets,
{
    let n = pairs.len() as int;
    lemma_named_pairs_prefix(pairs, offsets, n);
    assert(pairs.take(n) =~= pairs);
    let got = offsets_of_pairs(pairs);
    assert forall|tp: (Seq<char>, i32)| got.contains_key(tp) == offsets.contains_key(tp) by {
        if offsets.contains_key(tp) {
            let name = entry_text(tp.0, tp.1);
            law_entry_name_denotes_partition(tp.0, tp.1);
            assert(named_offsets(offsets).contains_key(name));
            lemma_pairs_keys(pairs, name);
        }
    }
    assert(got =~= offsets);
}

/// The JSON form of the offsets, ready to be stored. Reading it back gives the same offsets.
pub fn encode_offsets(offsets: &AssocMap<TopicPartition, i64>) -> (bytes: Option<Vec<u8>>)
    ensures
        bytes is Some,
        bytes->0@ == offsets_json(named_offsets(offsets@)),
        stored_offsets(Some(bytes->0@)) == offsets@,
{
    let n: usize = offsets.len();
    let mut named: Vec<(String, i64)> = Vec::new();
    let mut i: usize = 0;
    while i < n
        invariant
            n == offsets.entries().len(),
            distinct_keys(offsets.entries()),
            i <= n,
            named@.len() == i,
            forall|j: int|
                0 <= j < i ==> (#[trigger] named@[j]).0@ == entry_text(
                    offsets.entries()[j].0.topic@,
                    offsets.entries()[j].0.partition,
                ) && named@[j].1 == offsets.entries()[j].1,
        decreases n - i,
    {
        let entry = offsets.entry(i);
        named.push(
            (offset_entry_name(entry.0.topic.as_str(), entry.0.partition), entry.1),
        );
        i = i + 1;
    }
    proof {
        let es = offsets.entries();
        assert(distinct_keys(named@)) by {
            assert forall|a: int, b: int|
                0 <= a < named@.len() && 0 <= b < named@.len() && (#[trigger] named@[a]).0.model()
                    == (#[trigger] named@[b]).0.model() implies a == b by {
                law_entry_name_denotes_partition(es[a].0.topic@, es[a].0.partition);
                law_entry_name_denotes_partition(es[b].0.topic@, es[b].0.partition);
                assert(es[a].0.model() == es[b].0.model());
            }
        }
        let m = entries_map(named@);
        let want = named_offsets(offsets@);
        assert forall|name: Seq<char>| #[trigger] m.contains_key(name) implies want.contains_key(
            name,
        ) && m[name] == want[name] by {
            let j = crate::assoc::key_index(named@, name);
            assert(named@[j].0@ == name);
            law_entry_name_denotes_partition(es[j].0.topic@, es[j].0.partition);
            crate::assoc::lemma_entry_in_map(es, j);
        }
        assert forall|name: Seq<char>| #[trigger] want.contains_key(name) implies m.contains_key(
            name,
        ) by {
            let tp = entry_partition(name)->0;
            assert(crate::assoc::has_key(es, tp));
            let j = crate::assoc::key_index(es, tp);
            assert(es[j].0.model() == tp);
            assert(named@[j].0@ == name);
            crate::assoc::lemma_entry_in_map(named@, j);
        }
        assert(m =~= want);
    }
    let bytes = offsets_to_json(&named);
    proof {
        lemma_named_pairs_give_offsets(json_offsets(bytes->0@)->0, offsets@);
    }
    bytes
}

/// The keys of several instances differ, each starts with the source and ends with the suffix; a
/// single instance has a key without its number.
pub proof fn law_offset_keys_are_distinct(suffix: Seq<char>, a: nat, b: nat, parallelism: nat)
    ensures
        parallelism > 1 && a != b ==> offset_key_of(suffix, a, parallelism) != offset_key_of(
            suffix,
            b,
            parallelism,
        ),
        parallelism <= 1 ==> offset_key_of(suffix, a, parallelism) == offset_key_of(
            suffix,
            b,
            parallelism,
        ),
        offset_key_of(suffix, a, parallelism).take(10) == "sources/0/"@,
        offset_key_of(suffix, a, parallelism).len() >= 10 + suffix.len(),
        offset_key_of(suffix, a, parallelism).skip(
            offset_key_of(suffix, a, parallelism).len() - suffix.len(),
        ) == suffix,
        parallelism <= 1 ==> offset_key_of(suffix, a, parallelism).len() == 10 + suffix.len(),
{
    reveal_strlit("sources/0/");
    reveal_strlit("sources/0/inst-");
    reveal_strlit("/");
    let ka = offset_key_of(suffix, a, parallelism);
    let kb = offset_key_of(suffix, b, parallelism);
    assert(ka.take(10) =~= "sources/0/"@);
    assert(ka.skip(ka.len() - suffix.len()) =~= suffix);
    if parallelism > 1 && ka == kb {
        lemma_between(decimal(a), decimal(b), "/"@ + suffix);
        let head = "sources/0/inst-"@;
        assert(ka =~= head + (decimal(a) + ("/"@ + suffix)));
        assert(kb =~= head + (decimal(b) + ("/"@ + suffix)));
        assert(ka.skip(15) =~= decimal(a) + ("/"@ + suffix));
        assert(kb.skip(15) =~= decimal(b) + ("/"@ + suffix));
        lemma_decimal_injective(a, b);
    }
}

proof fn lemma_between(a: Seq<char>, b: Seq<char>, rest: Seq<char>)
    ensures
        a + rest == b + rest ==> a == b,
{
    if a + rest == b + rest {
        assert((a + rest).len() == (b + rest).len());
        assert forall|i: int| 0 <= i < a.len() implies a[i] == b[i] by {
            assert((a + rest)[i] == (b + rest)[i]);
        }
        assert(a =~= b);
    }
}

/// The key under which an instance stages its offsets for an epoch tells both apart.
pub proof fn law_staged_keys_are_distinct(a: nat, b: nat, epoch: nat, other: nat)
    requires
        staged_epoch_key_of(a, epoch) == staged_epoch_key_of(b, other),
    ensures
        a == b,
        epoch == other,
{
    reveal_strlit("sources/0/inst-");
    reveal_strlit("/staged-epoch-");
    let ka = staged_epoch_key_of(a, epoch);
    let kb = staged_epoch_key_of(b, other);
    let mid = "/staged-epoch-"@;
    lemma_decimal_denotes(a);
    lemma_decimal_denotes(b);
    let da = decimal(a);
    let db = decimal(b);
    assert(ka.skip(15) =~= da + mid + decimal(epoch));
    assert(kb.skip(15) =~= db + mid + decimal(other));
    if da.len() < db.len() {
        assert(ka.skip(15)[da.len() as int] == '/');
        assert(kb.skip(15)[da.len() as int] == db[da.len() as int]);
        assert(is_digit(db[da.len() as int]));
    }
    if db.len() < da.len() {
        assert(kb.skip(15)[db.len() as int] == '/');
        assert(ka.skip(15)[db.len() as int] == da[db.len() as int]);
        assert(is_digit(da[db.len() as int]));
    }
    assert forall|i: int| 0 <= i < da.len() implies da[i] == db[i] by {
        assert(ka.skip(15)[i] == kb.skip(15)[i]);
    }
    assert(da =~= db);
    lemma_decimal_injective(a, b);
    let n = da.len() + mid.len();
    assert(ka.skip(15).skip(n as int) =~= decimal(epoch));
    assert(kb.skip(15).skip(n as int) =~= decimal(other));
    lemma_decimal_injective(epoch, other);
}

/// The durable form names each partition once, by topic and number, with its offset, and nothing else.
pub proof fn law_durable_form_names_every_partition(offsets: Map<(Seq<char>, i32), i64>)
    ensures
        forall|topic: Seq<char>, partition: i32| #[trigger]
            offsets.contains_key((topic, partition)) ==> {
                &&& named_offsets(offsets).contains_key(entry_text(topic, partition))
                &&& named_offsets(offsets)[entry_text(topic, partition)] == offsets[(
                    topic,
                    partition,
                )]
            },
        forall|name: Seq<char>| #[trigger]
            named_offsets(offsets).contains_key(name) ==> exists|tp: (Seq<char>, i32)| #[trigger]
                offsets.contains_key(tp) && name == tp.0 + seq![':'] + signed_decimal(tp.1 as int),
{
    assert forall|topic: Seq<char>, partition: i32| #[trigger]
        offsets.contains_key((topic, partition)) implies {
        &&& named_offsets(offsets).contains_key(entry_text(topic, partition))
        &&& named_offsets(offsets)[entry_text(topic, partition)] == offsets[(topic, partition)]
    } by {
        law_entry_name_denotes_partition(topic, partition);
    }
    assert forall|name: Seq<char>| #[trigger]
        named_offsets(offsets).contains_key(name) implies exists|tp: (Seq<char>, i32)| #[trigger]
        offsets.contains_key(tp) && name == tp.0 + seq![':'] + signed_decimal(tp.1 as int) by {
        reveal_strlit(":");
        let tp = entry_partition(name)->0;
        assert(":"@ =~= seq![':']);
        assert(offsets.contains_key(tp));
    }
}

/// An entry is a topic, a colon and the number of a partition, the last colon counting: an entry is
/// read exactly where there is a colon with such a number behind it.
pub proof fn law_entries_are_topic_and_number(name: Seq<char>)
    ensures
        match entry_partition(name) {
            Some(tp) => {
                &&& tp.0.len() < name.len()
                &&& name.take(tp.0.len() as int) == tp.0
                &&& name[tp.0.len() as int] == ':'
                &&& forall|i: int| tp.0.len() < i < name.len() ==> #[trigger] name[i] != ':'
                &&& parse_signed(
                    name.skip(tp.0.len() as int + 1),
                    i32::MIN as int,
                    i32::MAX as int,
                ) == Some(tp.1 as int)
            },
            None => forall|at: int|
                0 <= at < name.len() && #[trigger] name[at] == ':' ==> parse_signed(
                    name.skip(at + 1),
                    i32::MIN as int,
                    i32::MAX as int,
                ) is None || exists|i: int| at < i < name.len() && #[trigger] name[i] == ':',
        },
{
    law_last_position_is_the_last(name, ':');
    let at = last_position(name, ':');
    if at >= 0 {
        law_parsed_numbers_are_in_range(name.skip(at + 1), i32::MIN as int, i32::MAX as int);
    }
    if entry_partition(name) is None {
        assert forall|k: int| 0 <= k < name.len() && #[trigger] name[k] == ':' implies parse_signed(
            name.skip(k + 1),
            i32::MIN as int,
            i32::MAX as int,
        ) is None || exists|i: int| k < i < name.len() && #[trigger] name[i] == ':' by {
            if k < at {
                assert(name[at] == ':');
            }
        }
    }
}

/// Of the stored entries that name one partition the last one counts, and entries that name none are
/// passed over.
pub proof fn law_last_entry_of_a_partition_counts(pairs: Seq<(Seq<char>, i64)>, tp: (Seq<char>, i32))
    ensures
        offsets_of_pairs(pairs).contains_key(tp) <==> exists|i: int|
            0 <= i < pairs.len() && entry_partition((#[trigger] pairs[i]).0) == Some(tp),
        forall|i: int|
            0 <= i < pairs.len() && entry_partition((#[trigger] pairs[i]).0) == Some(tp) && (forall|
                j: int,
            |
                i < j < pairs.len() ==> entry_partition((#[trigger] pairs[j]).0) != Some(tp))
                ==> offsets_of_pairs(pairs)[tp] == pairs[i].1,
    decreases pairs.len(),
{
    if pairs.len() > 0 {
        let rest = pairs.drop_last();
        let n = pairs.len() - 1;
        law_last_entry_of_a_partition_counts(rest, tp);
        if offsets_of_pairs(rest).contains_key(tp) {
            let i = choose|i: int|
                0 <= i < rest.len() && entry_partition((#[trigger] rest[i]).0) == Some(tp);
            assert(pairs[i] == rest[i]);
        }
        if entry_partition(pairs.last().0) == Some(tp) {
            assert(entry_partition(pairs[n].0) == Some(tp));
        }
        if exists|i: int|
            0 <= i < pairs.len() && entry_partition((#[trigger] pairs[i]).0) == Some(tp) {
            let i = choose|i: int|
                0 <= i < pairs.len() && entry_partition((#[trigger] pairs[i]).0) == Some(tp);
            if i < n {
                assert(rest[i] == pairs[i]);
            }
        }
        assert forall|i: int|
            0 <= i < pairs.len() && entry_partition((#[trigger] pairs[i]).0) == Some(tp) && (forall|
                j: int,
            |
                i < j < pairs.len() ==> entry_partition((#[trigger] pairs[j]).0) != Some(
                    tp,
                )) implies offsets_of_pairs(pairs)[tp] == pairs[i].1 by {
            if i < n {
                assert(rest[i] == pairs[i]);
                assert(entry_partition(pairs[n].0) != Some(tp));
                assert forall|j: int| i < j < rest.len() implies entry_partition(
                    (#[trigger] rest[j]).0,
                ) != Some(tp) by {
                    assert(rest[j] == pairs[j]);
                }
            }
        }
    }
}

} // verus!
