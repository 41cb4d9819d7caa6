//! The most frequent values of a column.
//!
//! The binary form of a counter is, in little-endian order: the number of values to report
//! (4 bytes), the number of entries (4 bytes), and for each entry its count (8 bytes), the length of
//! its key (4 bytes) and the key.

use vstd::prelude::*;

use crate::assoc::MapKey;
use crate::bytes;
use crate::bytes::{
    law_i64_bytes_round_trip, law_u32_bytes_round_trip, le_bytes, le_value, twos_complement,
};
use crate::sorting;
use crate::sorting::{
    alike, law_alike_values_keep_their_order, law_sorted_values_are_in_order, stable_sorted, Ranked,
};
use crate::text;
use crate::text::signed_decimal;

verus! {

/// An integer literal, or the type of something else.
#[derive(Debug)]
pub enum TopKLiteral {
    Signed(i64),
    Unsigned(u64),
    Other(String),
}

/// Why a number of values is refused.
#[derive(Debug)]
pub enum TopKError {
    NotAnInteger { data_type: String },
    NotPositive { k: i64 },
}

impl TopKError {
    /// The message for the user.
    pub open spec fn text(self) -> Seq<char> {
        match self {
            TopKError::NotAnInteger { data_type } =>
                "approx_top_k requires an integer literal for k, got "@ + data_type@,
            TopKError::NotPositive { k } => "approx_top_k requires k to be positive, got "@
                + signed_decimal(k as int),
        }
    }

    /// The message for the user.
    pub fn message(&self) -> (out: String)
        ensures
            out@ == self.text(),
    {
        match self {
            TopKError::NotAnInteger { data_type } => {
                text::concat(
                    "approx_top_k requires an integer literal for k, got ",
                    data_type.as_str(),
                )
            },
            TopKError::NotPositive { k } => {
                let mut out = "approx_top_k requires k to be positive, got ".to_owned();
                text::push_signed_decimal(&mut out, *k);
                out
            },
        }
    }
}

/// The number that a literal stands for, in 64 bits.
pub open spec fn literal_value(literal: TopKLiteral) -> Option<i64> {
    match literal {
        TopKLiteral::Signed(v) => Some(v),
        TopKLiteral::Unsigned(v) => Some(v as i64),
        TopKLiteral::Other(_) => None,
    }
}

/// The number of values to report.
pub fn extract_k(literal: TopKLiteral) -> (result: Result<usize, TopKError>)
    ensures
        match literal_value(literal) {
            Some(k) => if k >= 1 {
                result == Ok::<usize, TopKError>(k as usize)
            } else {
                result == Err::<usize, TopKError>(TopKError::NotPositive { k })
            },
            None => result matches Err(e) && e matches TopKError::NotAnInteger { data_type }
                && literal == TopKLiteral::Other(data_type),
        },
{
    let k: i64 = match literal {
        TopKLiteral::Signed(v) => v,
        TopKLiteral::Unsigned(v) => v as i64,
        TopKLiteral::Other(data_type) => {
            return Err(TopKError::NotAnInteger { data_type });
        },
    };
    if k < 1 {
        return Err(TopKError::NotPositive { k });
    }
    Ok(k as usize)
}

/// The number of values to report as it is kept in a state, where it fits.
pub fn state_k(k: usize) -> (state: Option<i32>)
    ensures
        state == if k <= i32::MAX {
            Some(k as i32)
        } else {
            None
        },
{
    if k as u64 <= 2147483647 {
        Some(k as i32)
    } else {
        None
    }
}

/// The number of values to report after a state is merged: the state's, where it has one.
pub fn merged_k(k: usize, state: i32) -> (merged: usize)
    ensures
        merged == if state > 0 {
            state as usize
        } else {
            k
        },
{
    if state > 0 {
        state as usize
    } else {
        k
    }
}

/// Values and how often each was seen, in the order in which they were first seen.
#[derive(Debug)]
pub struct FreqCounter<V: MapKey> {
    entries: Vec<(V, i64)>,
}

/// The model of an entry: the value and its count.
pub open spec fn entry_models<V: MapKey>(entries: Seq<(V, i64)>) -> Seq<(V::Model, int)> {
    entries.map_values(|e: (V, i64)| (e.0.model(), e.1 as int))
}

impl<V: MapKey> View for FreqCounter<V> {
    type V = Seq<(V::Model, int)>;

    closed spec fn view(&self) -> Seq<(V::Model, int)> {
        entry_models(self.entries@)
    }
}

/// The counts with one raised, or added as the last.
pub open spec fn counted<M>(entries: Seq<(M, int)>, value: M, count: int) -> Seq<(M, int)>
    decreases entries.len(),
{
    if entries.len() == 0 {
        seq![(value, count)]
    } else if entries[0].0 == value {
        entries.update(0, (value, entries[0].1 + count))
    } else {
        seq![entries[0]] + counted(entries.skip(1), value, count)
    }
}

/// The counts with others added, one after the other.
pub open spec fn all_counted<M>(entries: Seq<(M, int)>, more: Seq<(M, int)>) -> Seq<(M, int)>
    decreases more.len(),
{
    if more.len() == 0 {
        entries
    } else {
        counted(all_counted(entries, more.drop_last()), more.last().0, more.last().1)
    }
}

/// Whether all counts are within the machine's limits.
pub open spec fn counts_fit<M>(entries: Seq<(M, int)>) -> bool {
    forall|i: int|
        0 <= i < entries.len() ==> i64::MIN <= (#[trigger] entries[i]).1 <= i64::MAX
}

/// Whether all counts stay within the machine's limits while others are added.
pub open spec fn sums_fit<M>(entries: Seq<(M, int)>, more: Seq<(M, int)>) -> bool {
    forall|n: int|
        0 <= n <= more.len() ==> counts_fit(#[trigger] all_counted(entries, more.take(n)))
}

proof fn lemma_counted<M>(entries: Seq<(M, int)>, value: M, count: int, i: int)
    requires
        0 <= i <= entries.len(),
        forall|k: int| 0 <= k < i ==> (#[trigger] entries[k]).0 != value,
        i < entries.len() ==> entries[i].0 == value,
    ensures
        counted(entries, value, count) == if i < entries.len() {
            entries.update(i, (value, entries[i].1 + count))
        } else {
            entries.push((value, count))
        },
    decreases entries.len(),
{
    if entries.len() == 0 {
        assert(entries.push((value, count)) =~= seq![(value, count)]);
    } else if i > 0 {
        let rest = entries.skip(1);
        assert forall|k: int| 0 <= k < i - 1 implies (#[trigger] rest[k]).0 != value by {
            assert(rest[k] == entries[k + 1]);
        }
        lemma_counted(rest, value, count, i - 1);
        assert(entries[0].0 != value);
        if i < entries.len() {
            assert(seq![entries[0]] + rest.update(i - 1, (value, rest[i - 1].1 + count))
                =~= entries.update(i, (value, entries[i].1 + count)));
        } else {
            assert(seq![entries[0]] + rest.push((value, count)) =~= entries.push((value, count)));
        }
    }
}

/// A position and its count; larger counts come first.
#[derive(Debug, Clone, Copy, PartialEq, Eq, Structural)]
pub struct Frequency {
    pub position: usize,
    pub count: i64,
}

impl Ranked for Frequency {
    open spec fn ranks(&self, other: &Self) -> bool {
        self.count >= other.count
    }

    proof fn lemma_total(a: &Self, b: &Self) {
    }

    proof fn lemma_transitive(a: &Self, b: &Self, c: &Self) {
    }

    fn ranked(&self, other: &Self) -> (before: bool) {
        self.count >= other.count
    }
}

/// The positions of entries with their counts.
pub open spec fn frequencies<M>(entries: Seq<(M, int)>) -> Seq<Frequency> {
    Seq::new(
        entries.len(),
        |i: int| Frequency { position: i as usize, count: entries[i].1 as i64 },
    )
}

/// The positions of the most frequent values with their counts: by falling count, and where counts
/// are equal in the order in which the values were first seen.
pub open spec fn most_frequent<M>(entries: Seq<(M, int)>, k: usize) -> Seq<Frequency> {
    let sorted = stable_sorted(frequencies(entries));
    if sorted.len() <= k {
        sorted
    } else {
        sorted.take(k as int)
    }
}

impl<V: MapKey> FreqCounter<V> {
    /// A counter without values.
    pub fn new() -> (counter: Self)
        ensures
            counter@ == Seq::<(V::Model, int)>::empty(),
    {
        let counter = FreqCounter { entries: Vec::new() };
        assert(entry_models(counter.entries@) =~= Seq::<(V::Model, int)>::empty());
        counter
    }

    /// The number of values.
    pub fn len(&self) -> (n: usize)
        ensures
            n == self@.len(),
    {
        self.entries.len()
    }

    /// The value at a position, and its count.
    pub fn entry(&self, position: usize) -> (entry: (&V, i64))
        requires
            position < self@.len(),
        ensures
            (entry.0.model(), entry.1 as int) == self@[position as int],
    {
        (&self.entries[position].0, self.entries[position].1)
    }

    fn count(&mut self, value: V, count: i64)
        requires
            counts_fit(counted(old(self)@, value.model(), count as int)),
        ensures
            final(self)@ == counted(old(self)@, value.model(), count as int),
    {
        let ghost before = self@;
        let ghost model = value.model();
        let mut i: usize = 0;
        while i < self.entries.len()
            invariant
                self@ == before,
                i <= self.entries@.len(),
                model == value.model(),
                forall|k: int| 0 <= k < i ==> (#[trigger] before[k]).0 != model,
                counts_fit(counted(before, model, count as int)),
            ensures
                self@ == before,
                i <= self.entries@.len(),
                forall|k: int| 0 <= k < i ==> (#[trigger] before[k]).0 != model,
                i < self.entries@.len() ==> before[i as int].0 == model,
            decreases self.entries@.len() - i,
        {
            assert(before[i as int].0 == self.entries@[i as int].0.model());
            if self.entries[i].0.same(&value) {
                break;
            }
            i = i + 1;
        }
        proof {
            lemma_counted(before, model, count as int, i as int);
        }
        if i < self.entries.len() {
            proof {
                assert(counted(before, model, count as int)[i as int].1 == before[i as int].1
                    + count);
                assert(before[i as int].1 == self.entries@[i as int].1);
            }
            let sum: i64 = self.entries[i].1 + count;
            self.entries[i].1 = sum;
            assert(self@ =~= before.update(i as int, (model, before[i as int].1 + count)));
        } else {
            self.entries.push((value, count));
            assert(self@ =~= before.push((model, count as int)));
        }
    }

    /// Counts a value once; a value that is null is not counted.
    pub fn add(&mut self, value: Option<V>)
        requires
            value matches Some(v) ==> counts_fit(counted(old(self)@, v.model(), 1)),
        ensures
            final(self)@ == match value {
                Some(v) => counted(old(self)@, v.model(), 1),
                None => old(self)@,
            },
    {
        match value {
            Some(v) => self.count(v, 1),
            None => {},
        }
    }

    /// Adds the counts of others.
    pub fn merge(&mut self, more: Vec<(V, i64)>)
        requires
            sums_fit(old(self)@, entry_models(more@)),
        ensures
            final(self)@ == all_counted(old(self)@, entry_models(more@)),
    {
        let ghost start = self@;
        let ghost models = entry_models(more@);
        let mut rest = more;
        let ghost mut n: int = 0;
        proof {
            assert(models.take(0) =~= Seq::<(V::Model, int)>::empty());
            assert(rest@ =~= more@.skip(0));
        }
        while rest.len() > 0
            invariant
                0 <= n <= more@.len(),
                rest@ == more@.skip(n),
                models == entry_models(more@),
                sums_fit(start, models),
                self@ == all_counted(start, models.take(n)),
            decreases rest@.len(),
        {
            let (value, count) = rest.remove(0);
            proof {
                assert(more@.skip(n)[0] == more@[n]);
                assert(more@.skip(n + 1) =~= more@.skip(n).remove(0));
                let next = models.take(n + 1);
                assert(next.drop_last() =~= models.take(n));
                assert(next.last() == (value.model(), count as int));
                assert(counts_fit(all_counted(start, models.take(n + 1))));
            }
            self.count(value, count);
            proof {
                n = n + 1;
            }
        }
        assert(models.take(n) =~= models);
    }

    /// The positions of the most frequent values, with their counts.
    pub fn top_k(&self, k: usize) -> (top: Vec<Frequency>)
        ensures
            top@ == most_frequent(self@, k),
    {
        let mut all: Vec<Frequency> = Vec::new();
        let mut i: usize = 0;
        while i < self.entries.len()
            invariant
                i <= self.entries@.len(),
                all@.len() == i,
                forall|j: int|
                    0 <= j < i ==> #[trigger] all@[j] == (Frequency {
                        position: j as usize,
                        count: self.entries@[j].1,
                    }),
            decreases self.entries@.len() - i,
        {
            all.push(Frequency { position: i, count: self.entries[i].1 });
            i = i + 1;
        }
        assert(all@ =~= frequencies(self@));
        let mut top = sorting::sort(all);
        let ghost sorted = top@;
        if top.len() > k {
            top.truncate(k);
            assert(top@ =~= sorted.take(k as int));
        }
        top
    }
}

/// The sum of counts.
pub open spec fn total<M>(entries: Seq<(M, int)>) -> int
    decreases entries.len(),
{
    if entries.len() == 0 {
        0
    } else {
        entries[0].1 + total(entries.skip(1))
    }
}

/// Counting loses nothing: the sum of all counts grows by what is counted.
pub proof fn law_every_value_is_counted<M>(entries: Seq<(M, int)>, value: M, count: int)
    ensures
        total(counted(entries, value, count)) == total(entries) + count,
    decreases entries.len(),
{
    let after = counted(entries, value, count);
    if entries.len() == 0 {
        assert(after.skip(1) =~= Seq::<(M, int)>::empty());
        assert(total(after.skip(1)) == 0);
    } else if entries[0].0 == value {
        assert(after.skip(1) =~= entries.skip(1));
    } else {
        law_every_value_is_counted(entries.skip(1), value, count);
        assert(after.skip(1) =~= counted(entries.skip(1), value, count));
    }
}

/// No value that is left out is more frequent than one that is reported.
pub proof fn law_reported_values_are_most_frequent<M>(entries: Seq<(M, int)>, k: usize, i: int, j: int)
    requires
        k < entries.len(),
        0 <= i < k <= j < entries.len(),
    ensures
        ({
            let sorted = stable_sorted(frequencies(entries));
            &&& sorted.len() == entries.len()
            &&& most_frequent(entries, k)[i].count >= sorted[j].count
            &&& sorted.to_multiset() == frequencies(entries).to_multiset()
        }),
{
    let all = frequencies(entries);
    sorting::lemma_stable_sorted(all);
    let sorted = stable_sorted(all);
    assert(sorted[i].ranks(&sorted[j]));
}

/// An entry of the binary form.
#[derive(Debug)]
pub struct KeyCount {
    pub key: Vec<u8>,
    pub count: i64,
}

/// The key and the count of entries.
pub open spec fn key_counts(entries: Seq<KeyCount>) -> Seq<(Seq<u8>, i64)> {
    entries.map_values(|e: KeyCount| (e.key@, e.count))
}

/// The binary form of an entry.
pub open spec fn entry_bytes(e: (Seq<u8>, i64)) -> Seq<u8> {
    le_bytes(twos_complement(e.1), 8) + le_bytes((e.0.len() as u32) as nat, 4) + e.0
}

/// The binary form of entries.
pub open spec fn entries_bytes(entries: Seq<(Seq<u8>, i64)>) -> Seq<u8>
    decreases entries.len(),
{
    if entries.len() == 0 {
        Seq::empty()
    } else {
        entry_bytes(entries[0]) + entries_bytes(entries.skip(1))
    }
}

/// The binary form of a counter.
pub open spec fn counter_bytes(k: usize, entries: Seq<(Seq<u8>, i64)>) -> Seq<u8> {
    le_bytes((k as u32) as nat, 4) + le_bytes((entries.len() as u32) as nat, 4) + entries_bytes(
        entries,
    )
}

/// The binary form of a counter.
pub fn serialize(k: usize, entries: &[KeyCount]) -> (out: Vec<u8>)
    ensures
        out@ == counter_bytes(k, key_counts(entries@)),
{
    let ghost all = key_counts(entries@);
    let mut out: Vec<u8> = Vec::new();
    bytes::push_u32_le(&mut out, k as u32);
    bytes::push_u32_le(&mut out, entries.len() as u32);
    let ghost head = out@;
    let mut i: usize = 0;
    proof {
        assert(all.skip(0) =~= all);
        assert(out@ + entries_bytes(all.skip(0)) =~= head + entries_bytes(all));
    }
    while i < entries.len()
        invariant
            i <= entries@.len(),
            all == key_counts(entries@),
            out@ + entries_bytes(all.skip(i as int)) == head + entries_bytes(all),
        decreases entries@.len() - i,
    {
        let ghost before = out@;
        let entry = &entries[i];
        bytes::push_i64_le(&mut out, entry.count);
        bytes::push_u32_le(&mut out, entry.key.len() as u32);
        bytes::append(&mut out, entry.key.as_slice());
        proof {
            let rest = all.skip(i as int);
            assert(rest[0] == (entry.key@, entry.count));
            assert(rest.skip(1) =~= all.skip(i + 1));
            assert(out@ =~= before + entry_bytes(rest[0]));
            assert(out@ + entries_bytes(all.skip(i + 1)) =~= before + entries_bytes(rest));
        }
        i = i + 1;
    }
    proof {
        assert(all.skip(i as int) =~= Seq::<(Seq<u8>, i64)>::empty());
        assert(out@ + entries_bytes(all.skip(i as int)) =~= out@);
        assert(out@ =~= counter_bytes(k, all));
    }
    out
}

/// The signed number whose two's complement is given.
pub open spec fn signed(bits: nat) -> i64 {
    if bits < 0x8000_0000_0000_0000 {
        bits as i64
    } else {
        (bits - 0x1_0000_0000_0000_0000) as i64
    }
}

/// The first `n` entries of bytes, as far as they are there.
pub open spec fn parsed_entries(b: Seq<u8>, n: nat) -> Seq<(Seq<u8>, i64)>
    decreases n,
{
    if n == 0 || b.len() < 12 {
        Seq::empty()
    } else {
        let len = le_value(b.subrange(8, 12)) as int;
        if b.len() < 12 + len {
            Seq::empty()
        } else {
            seq![(b.subrange(12, 12 + len), signed(le_value(b.subrange(0, 8))))] + parsed_entries(
                b.skip(12 + len),
                (n - 1) as nat,
            )
        }
    }
}

/// The number of values to report and the entries of a binary form.
#[derive(Debug)]
pub struct ParsedCounter {
    pub k: u32,
    pub entries: Vec<KeyCount>,
}

/// The counter of a binary form, as far as its entries are there; nothing where bytes are too few
/// for its header.
pub fn deserialize(b: &[u8]) -> (parsed: Option<ParsedCounter>)
    ensures
        match parsed {
            Some(counter) => {
                &&& b@.len() >= 8
                &&& counter.k == le_value(b@.subrange(0, 4))
                &&& key_counts(counter.entries@) == parsed_entries(
                    b@.skip(8),
                    le_value(b@.subrange(4, 8)),
                )
            },
            None => b@.len() < 8,
        },
{
    if b.len() < 8 {
        return None;
    }
    let k: u32 = bytes::read_u32_le(b, 0);
    let n: u32 = bytes::read_u32_le(b, 4);
    let ghost whole = parsed_entries(b@.skip(8), n as nat);
    let mut entries: Vec<KeyCount> = Vec::new();
    let mut left: u32 = n;
    let mut pos: usize = 8;
    proof {
        assert(key_counts(entries@) + whole =~= whole);
    }
    while left > 0
        invariant
            8 <= pos <= b@.len(),
            key_counts(entries@) + parsed_entries(b@.skip(pos as int), left as nat) == whole,
        ensures
            key_counts(entries@) == whole,
        decreases left,
    {
        let ghost rest = b@.skip(pos as int);
        let ghost before = key_counts(entries@);
        if b.len() - pos < 12 {
            assert(before + Seq::<(Seq<u8>, i64)>::empty() =~= before);
            break;
        }
        let count: i64 = bytes::read_i64_le(b, pos);
        let len: u32 = bytes::read_u32_le(b, pos + 8);
        proof {
            assert(b@.subrange(pos as int, pos + 8) =~= rest.subrange(0, 8));
            assert(b@.subrange(pos + 8, pos + 12) =~= rest.subrange(8, 12));
            assert(signed(twos_complement(count)) == count);
        }
        if ((b.len() - pos - 12) as u64) < len as u64 {
            assert(before + Seq::<(Seq<u8>, i64)>::empty() =~= before);
            break;
        }
        let from: usize = pos + 12;
        let to: usize = from + len as usize;
        let key = bytes::copy_range(b, from, to);
        let entry = KeyCount { key, count };
        let ghost view = (entry.key@, entry.count);
        entries.push(entry);
        proof {
            assert(b@.subrange(from as int, to as int) =~= rest.subrange(12, 12 + len));
            assert(rest.skip(12 + len) =~= b@.skip(to as int));
            assert(key_counts(entries@) =~= before.push(view));
            let tail = parsed_entries(b@.skip(to as int), (left - 1) as nat);
            assert(before.push(view) + tail =~= before + (seq![view] + tail));
        }
        pos = to;
        left = left - 1;
        if left == 0 {
            proof {
                assert(parsed_entries(b@.skip(pos as int), 0) =~= Seq::<(Seq<u8>, i64)>::empty());
                assert(key_counts(entries@) + Seq::<(Seq<u8>, i64)>::empty() =~= key_counts(
                    entries@,
                ));
            }
        }
    }
    Some(ParsedCounter { k, entries })
}

/// The number of values to report, and the entries to count, of states in their binary form, one
/// after the other: a state that is null or too short for its header has none, and one that reports
/// no value leaves the number as it is.
pub open spec fn states_parsed(k: usize, states: Seq<Option<Seq<u8>>>) -> (
    usize,
    Seq<(Seq<u8>, i64)>,
)
    decreases states.len(),
{
    if states.len() == 0 {
        (k, Seq::empty())
    } else {
        let before = states_parsed(k, states.drop_last());
        match states.last() {
            Some(b) => if b.len() < 8 {
                before
            } else {
                let reported = le_value(b.subrange(0, 4));
                (
                    if reported > 0 {
                        reported as usize
                    } else {
                        before.0
                    },
                    before.1 + parsed_entries(b.skip(8), le_value(b.subrange(4, 8))),
                )
            },
            None => before,
        }
    }
}

/// The contents of states.
pub open spec fn state_models(states: Seq<Option<Vec<u8>>>) -> Seq<Option<Seq<u8>>> {
    states.map_values(
        |s: Option<Vec<u8>>|
            match s {
                Some(b) => Some(b@),
                None => None,
            },
    )
}

/// Reads the states of other counters in their binary form: the number of values to report, which
/// was `k`, and the entries to count, in order.
pub fn parse_states(k: usize, states: &[Option<Vec<u8>>]) -> (parsed: (usize, Vec<KeyCount>))
    ensures
        (parsed.0, key_counts(parsed.1@)) == states_parsed(k, state_models(states@)),
{
    let ghost models = state_models(states@);
    let mut reported: usize = k;
    let mut entries: Vec<KeyCount> = Vec::new();
    let mut i: usize = 0;
    proof {
        assert(models.take(0) =~= Seq::<Option<Seq<u8>>>::empty());
        assert(key_counts(entries@) =~= Seq::<(Seq<u8>, i64)>::empty());
    }
    while i < states.len()
        invariant
            i <= states@.len(),
            models == state_models(states@),
            (reported, key_counts(entries@)) == states_parsed(k, models.take(i as int)),
        decreases states@.len() - i,
    {
        let ghost before = entries@;
        proof {
            assert(models.take(i + 1).drop_last() =~= models.take(i as int));
            assert(models.take(i + 1).last() == models[i as int]);
        }
        if let Some(b) = &states[i] {
            if let Some(counter) = deserialize(b.as_slice()) {
                if counter.k > 0 {
                    reported = counter.k as usize;
                }
                let mut more = counter.entries;
                let ghost added = more@;
                entries.append(&mut more);
                assert(key_counts(entries@) =~= key_counts(before) + key_counts(added));
            }
        }
        i = i + 1;
    }
    assert(models.take(i as int) =~= models);
    (reported, entries)
}

proof fn lemma_entries_round_trip(entries: Seq<(Seq<u8>, i64)>)
    requires
        forall|i: int| 0 <= i < entries.len() ==> (#[trigger] entries[i]).0.len() <= u32::MAX,
    ensures
        parsed_entries(entries_bytes(entries), entries.len()) == entries,
    decreases entries.len(),
{
    if entries.len() > 0 {
        let first = entries[0];
        let rest = entries.skip(1);
        assert forall|i: int| 0 <= i < rest.len() implies (#[trigger] rest[i]).0.len()
            <= u32::MAX by {
            assert(rest[i] == entries[i + 1]);
        }
        lemma_entries_round_trip(rest);
        law_i64_bytes_round_trip(first.1);
        law_u32_bytes_round_trip(first.0.len() as u32);
        let b = entries_bytes(entries);
        let count = le_bytes(twos_complement(first.1), 8);
        let len = le_bytes((first.0.len() as u32) as nat, 4);
        let n = first.0.len() as int;
        assert(b.subrange(0, 8) =~= count);
        assert(b.subrange(8, 12) =~= len);
        assert(b.subrange(12, 12 + n) =~= first.0);
        assert(b.skip(12 + n) =~= entries_bytes(rest));
        assert(signed(twos_complement(first.1)) == first.1);
        assert(seq![first] + rest =~= entries);
    } else {
        assert(parsed_entries(entries_bytes(entries), 0) =~= entries);
    }
}

/// Reading the binary form of a counter gives its number of values to report and its entries back.
pub proof fn law_counter_round_trip(k: usize, entries: Seq<(Seq<u8>, i64)>)
    requires
        k <= u32::MAX,
        entries.len() <= u32::MAX,
        forall|i: int| 0 <= i < entries.len() ==> (#[trigger] entries[i]).0.len() <= u32::MAX,
    ensures
        ({
            let b = counter_bytes(k, entries);
            &&& b.len() >= 8
            &&& le_value(b.subrange(0, 4)) == k
            &&& parsed_entries(b.skip(8), le_value(b.subrange(4, 8))) == entries
        }),
{
    let b = counter_bytes(k, entries);
    law_u32_bytes_round_trip(k as u32);
    law_u32_bytes_round_trip(entries.len() as u32);
    assert(b.subrange(0, 4) =~= le_bytes((k as u32) as nat, 4));
    assert(b.subrange(4, 8) =~= le_bytes((entries.len() as u32) as nat, 4));
    assert(b.skip(8) =~= entries_bytes(entries));
    lemma_entries_round_trip(entries);
}

/// How often a value is counted.
pub open spec fn count_of<M>(entries: Seq<(M, int)>, value: M) -> int
    decreases entries.len(),
{
    if entries.len() == 0 {
        0
    } else {
        count_of(entries.drop_last(), value) + if entries.last().0 == value {
            entries.last().1
        } else {
            0
        }
    }
}

/// Whether no value has two entries.
pub open spec fn are_distinct<M>(entries: Seq<(M, int)>) -> bool {
    forall|i: int, j: int|
        0 <= i < j < entries.len() ==> (#[trigger] entries[i]).0 != (#[trigger] entries[j]).0
}

proof fn lemma_count_split<M>(entries: Seq<(M, int)>, value: M)
    requires
        entries.len() > 0,
    ensures
        count_of(entries, value) == (if entries[0].0 == value {
            entries[0].1
        } else {
            0
        }) + count_of(entries.skip(1), value),
    decreases entries.len(),
{
    if entries.len() == 1 {
        assert(entries.drop_last() =~= Seq::<(M, int)>::empty());
        assert(entries.skip(1) =~= Seq::<(M, int)>::empty());
    } else {
        lemma_count_split(entries.drop_last(), value);
        assert(entries.drop_last().skip(1) =~= entries.skip(1).drop_last());
        assert(entries.skip(1).last() == entries.last());
    }
}

proof fn lemma_counted_values<M>(entries: Seq<(M, int)>, value: M, count: int, i: int)
    ensures
        ({
            let after = counted(entries, value, count);
            &&& after.len() == entries.len() || after.len() == entries.len() + 1
            &&& 0 <= i < entries.len() ==> after[i].0 == entries[i].0
            &&& after.len() == entries.len() + 1 <==> forall|k: int|
                0 <= k < entries.len() ==> (#[trigger] entries[k]).0 != value
            &&& after.len() == entries.len() + 1 ==> after.last() == (value, count)
        }),
    decreases entries.len(),
{
    if entries.len() > 0 {
        if entries[0].0 != value {
            let rest = entries.skip(1);
            lemma_counted_values(rest, value, count, i - 1);
            if forall|k: int| 0 <= k < entries.len() ==> (#[trigger] entries[k]).0 != value {
                assert forall|k: int| 0 <= k < rest.len() implies (#[trigger] rest[k]).0
                    != value by {
                    assert(rest[k] == entries[k + 1]);
                }
            }
            if forall|k: int| 0 <= k < rest.len() ==> (#[trigger] rest[k]).0 != value {
                assert forall|k: int| 0 <= k < entries.len() implies (#[trigger] entries[k]).0
                    != value by {
                    if k > 0 {
                        assert(rest[k - 1] == entries[k]);
                    }
                }
            }
        }
    }
}

proof fn lemma_counted_counts<M>(entries: Seq<(M, int)>, value: M, count: int, other: M)
    ensures
        count_of(counted(entries, value, count), other) == count_of(entries, other) + if other
            == value {
            count
        } else {
            0
        },
    decreases entries.len(),
{
    let after = counted(entries, value, count);
    if entries.len() == 0 {
        assert(after.drop_last() =~= Seq::<(M, int)>::empty());
        assert(after.last() == (value, count));
        assert(count_of(after.drop_last(), other) == 0);
        assert(count_of(entries, other) == 0);
    } else if entries[0].0 == value {
        lemma_count_split(entries, other);
        lemma_count_split(after, other);
        assert(after.skip(1) =~= entries.skip(1));
    } else {
        lemma_counted_counts(entries.skip(1), value, count, other);
        lemma_count_split(entries, other);
        lemma_count_split(after, other);
        assert(after.skip(1) =~= counted(entries.skip(1), value, count));
    }
}

/// Counting a value adds to its count and to no other, keeps the entries in their order and no value
/// twice, and gives a new value an entry at the end.
pub proof fn law_counting_adds_to_one_value<M>(
    entries: Seq<(M, int)>,
    value: M,
    count: int,
    other: M,
)
    ensures
        ({
            let after = counted(entries, value, count);
            &&& count_of(after, value) == count_of(entries, value) + count
            &&& other != value ==> count_of(after, other) == count_of(entries, other)
            &&& are_distinct(entries) ==> are_distinct(after)
            &&& forall|i: int| 0 <= i < entries.len() ==> (#[trigger] after[i]).0 == entries[i].0
            &&& (exists|k: int| 0 <= k < entries.len() && (#[trigger] entries[k]).0 == value)
                ==> after.len() == entries.len()
            &&& !(exists|k: int| 0 <= k < entries.len() && (#[trigger] entries[k]).0 == value)
                ==> after.len() == entries.len() + 1 && after.last().0 == value
        }),
{
    let after = counted(entries, value, count);
    lemma_counted_counts(entries, value, count, value);
    lemma_counted_counts(entries, value, count, other);
    lemma_counted_values(entries, value, count, 0);
    assert forall|i: int| 0 <= i < entries.len() implies (#[trigger] after[i]).0
        == entries[i].0 by {
        lemma_counted_values(entries, value, count, i);
    }
    if are_distinct(entries) {
        assert forall|i: int, j: int| 0 <= i < j < after.len() implies (#[trigger] after[i]).0 != (
        #[trigger] after[j]).0 by {
            assert(after[i].0 == entries[i].0);
            if j < entries.len() {
                assert(after[j].0 == entries[j].0);
            } else {
                assert(after[j] == after.last());
            }
        }
    }
}

/// Merging two counters adds up the counts of every value, whichever is merged into the other.
pub proof fn law_merged_counts_add_up<M>(entries: Seq<(M, int)>, more: Seq<(M, int)>, value: M)
    ensures
        count_of(all_counted(entries, more), value) == count_of(entries, value) + count_of(
            more,
            value,
        ),
        count_of(all_counted(entries, more), value) == count_of(
            all_counted(more, entries),
            value,
        ),
        are_distinct(entries) ==> are_distinct(all_counted(entries, more)),
{
    lemma_merged_counts(entries, more, value);
    lemma_merged_counts(more, entries, value);
}

proof fn lemma_merged_counts<M>(entries: Seq<(M, int)>, more: Seq<(M, int)>, value: M)
    ensures
        count_of(all_counted(entries, more), value) == count_of(entries, value) + count_of(
            more,
            value,
        ),
        are_distinct(entries) ==> are_distinct(all_counted(entries, more)),
    decreases more.len(),
{
    if more.len() > 0 {
        lemma_merged_counts(entries, more.drop_last(), value);
        law_counting_adds_to_one_value(
            all_counted(entries, more.drop_last()),
            more.last().0,
            more.last().1,
            value,
        );
    }
}

/// What is reported: at most as many as asked for, and all where there are fewer; each with the count
/// of its entry, the most frequent first, no entry twice.
pub proof fn law_reported_values_are_entries<M>(entries: Seq<(M, int)>, k: usize)
    requires
        counts_fit(entries),
        entries.len() <= usize::MAX,
    ensures
        most_frequent(entries, k).len() == if entries.len() <= k {
            entries.len()
        } else {
            k as nat
        },
        forall|i: int|
            0 <= i < most_frequent(entries, k).len() ==> (#[trigger] most_frequent(
                entries,
                k,
            )[i]).position < entries.len() && most_frequent(entries, k)[i].count
                == entries[most_frequent(entries, k)[i].position as int].1,
        forall|i: int, j: int|
            0 <= i < j < most_frequent(entries, k).len() ==> (#[trigger] most_frequent(
                entries,
                k,
            )[i]).count >= (#[trigger] most_frequent(entries, k)[j]).count,
        forall|i: int, j: int|
            0 <= i < j < most_frequent(entries, k).len() ==> (#[trigger] most_frequent(
                entries,
                k,
            )[i]).position != (#[trigger] most_frequent(entries, k)[j]).position,
{
    let all = frequencies(entries);
    let sorted = stable_sorted(all);
    let top = most_frequent(entries, k);
    law_sorted_values_are_in_order(all);
    all.to_multiset_ensures();
    sorted.to_multiset_ensures();
    assert forall|i: int| 0 <= i < top.len() implies (#[trigger] top[i]).position < entries.len()
        && top[i].count == entries[top[i].position as int].1 by {
        assert(top[i] == sorted[i]);
        assert(sorted.contains(sorted[i]));
        assert(all.to_multiset().count(sorted[i]) > 0);
        assert(all.contains(sorted[i]));
        let p = choose|p: int| 0 <= p < all.len() && all[p] == sorted[i];
        assert(i64::MIN <= entries[p].1 <= i64::MAX);
    }
    assert forall|i: int, j: int| 0 <= i < j < top.len() implies (#[trigger] top[i]).count >= (
    #[trigger] top[j]).count by {
        assert(sorted[i].ranks(&sorted[j]));
    }
    assert(all.no_duplicates()) by {
        assert forall|i: int, j: int| 0 <= i < all.len() && 0 <= j < all.len() && i != j implies all[i]
            != all[j] by {
            assert(all[i].position == i && all[j].position == j);
        }
    }
    all.lemma_multiset_has_no_duplicates();
    assert(sorted.no_duplicates()) by {
        sorted.lemma_multiset_has_no_duplicates_conv();
    }
    assert forall|i: int, j: int| 0 <= i < j < top.len() implies (#[trigger] top[i]).position != (
    #[trigger] top[j]).position by {
        assert(top[i].position < entries.len() && top[j].position < entries.len());
        if top[i].position == top[j].position {
            assert(top[i].count == top[j].count);
            assert(sorted[i] == sorted[j]);
        }
    }
}

/// Of values that are equally frequent those are reported first whose entries come first.
pub proof fn law_equally_frequent_values_keep_their_order<M>(entries: Seq<(M, int)>, r: Frequency)
    ensures
        stable_sorted(frequencies(entries)).filter(|y: Frequency| alike(y, r)) == frequencies(
            entries,
        ).filter(|y: Frequency| alike(y, r)),
        forall|a: Frequency, b: Frequency| #[trigger] alike(a, b) <==> a.count == b.count,
{
    law_alike_values_keep_their_order(frequencies(entries), r);
}

/// States are read one after the other: the number of values to report is that of the last that says
/// one, and entries stand in the order of the states; what is missing or too short adds nothing.
pub proof fn law_states_are_read_in_order(
    k: usize,
    states: Seq<Option<Seq<u8>>>,
    state: Option<Seq<u8>>,
)
    ensures
        states_parsed(k, Seq::empty()) == (k, Seq::<(Seq<u8>, i64)>::empty()),
        state is None || state->0.len() < 8 ==> states_parsed(k, states.push(state))
            == states_parsed(k, states),
        state matches Some(b) ==> b.len() >= 8 ==> {
            let before = states_parsed(k, states);
            let after = states_parsed(k, states.push(state));
            let reported = le_value(b.subrange(0, 4));
            &&& reported == 0 ==> after.0 == before.0
            &&& 0 < reported <= usize::MAX ==> after.0 == reported
            &&& after.1.len() >= before.1.len() && after.1.take(before.1.len() as int) == before.1
            &&& after.1.skip(before.1.len() as int) == parsed_entries(
                b.skip(8),
                le_value(b.subrange(4, 8)),
            )
        },
{
    assert(states.push(state).drop_last() =~= states);
    if let Some(b) = state {
        if b.len() >= 8 {
            let before = states_parsed(k, states);
            let new = parsed_entries(b.skip(8), le_value(b.subrange(4, 8)));
            assert((before.1 + new).take(before.1.len() as int) =~= before.1);
            assert((before.1 + new).skip(before.1.len() as int) =~= new);
        }
    }
}

} // verus!
