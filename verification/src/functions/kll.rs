//! KLL sketches: a sample of the values that were seen, from which quantiles are estimated.
//!
//! The binary form is, in little-endian order: a magic number (4 bytes), the number of values
//! (4 bytes) and the values (8 bytes each).

use vstd::prelude::*;

use crate::bytes;
use crate::bytes::{
    law_u32_bytes_round_trip, law_words_stand_in_order, le_bytes, le_value, lemma_le_bytes_of_value,
    lemma_words_round_trip, word_bytes, words_at,
};
use crate::functions::theta::state_models;
use crate::sorting;
use crate::sorting::{law_sorted_values_are_in_order, stable_sorted, Ranked};

verus! {

/// Half the number of values at which a sketch is thinned out.
pub const KLL_K: usize = 200;

/// The first four bytes of a sketch.
pub const KLL_MAGIC: u32 = 0x4B4C_4C53;

/// A double-precision number, by its bits.
#[derive(Debug, Clone, Copy, PartialEq, Eq, Structural)]
pub struct Double {
    pub bits: u64,
}

impl Double {
    /// The place of a number in the total order of the IEEE 754 standard: the numbers without the
    /// sign bit by their bits, after those with it by their bits backwards.
    pub open spec fn place(self) -> int {
        if self.bits < 0x8000_0000_0000_0000 {
            self.bits as int
        } else {
            0x8000_0000_0000_0000 - 1 - self.bits
        }
    }

    fn wide_place(self) -> (place: i128)
        ensures
            place == self.place(),
    {
        if self.bits < 0x8000_0000_0000_0000 {
            self.bits as i128
        } else {
            0x8000_0000_0000_0000i128 - 1 - self.bits as i128
        }
    }
}

impl Ranked for Double {
    open spec fn ranks(&self, other: &Self) -> bool {
        self.place() <= other.place()
    }

    proof fn lemma_total(a: &Self, b: &Self) {
    }

    proof fn lemma_transitive(a: &Self, b: &Self, c: &Self) {
    }

    fn ranked(&self, other: &Self) -> (before: bool) {
        self.wide_place() <= other.wide_place()
    }
}

/// The values with even positions.
pub open spec fn every_other(values: Seq<Double>) -> Seq<Double> {
    Seq::new(((values.len() + 1) / 2) as nat, |i: int| values[2 * i])
}

/// A sample after it is thinned out: every other value in order.
pub open spec fn compacted(values: Seq<Double>) -> Seq<Double> {
    every_other(stable_sorted(values))
}

/// A sample, thinned out where it is full.
pub open spec fn settled(values: Seq<Double>) -> Seq<Double> {
    if values.len() >= 2 * KLL_K {
        compacted(values)
    } else {
        values
    }
}

/// The numbers of bits.
pub open spec fn doubles(words: Seq<u64>) -> Seq<Double> {
    words.map_values(|w: u64| Double { bits: w })
}

/// The bits of numbers.
pub open spec fn bits(values: Seq<Double>) -> Seq<u64> {
    values.map_values(|v: Double| v.bits)
}

/// The binary form of a sample.
pub open spec fn kll_bytes(values: Seq<Double>) -> Seq<u8> {
    le_bytes(KLL_MAGIC as nat, 4) + le_bytes((values.len() as u32) as nat, 4) + word_bytes(
        bits(values),
    )
}

/// Why bytes are no sketch.
#[derive(Debug, Clone, Copy, PartialEq, Eq, Structural)]
pub enum KllError {
    TooShort,
    BadMagic { magic: u32 },
    Truncated,
}

/// A hexadecimal digit.
pub open spec fn hex_digit(d: u32) -> char {
    if d < 10 {
        (48 + d) as char
    } else {
        (87 + d) as char
    }
}

/// The eight hexadecimal digits of a number.
pub open spec fn hex_text(n: u32) -> Seq<char> {
    Seq::new(8, |i: int| hex_digit(hex_place(n, i)))
}

/// The value of the `i`-th of the eight hexadecimal digits of a number.
pub open spec fn hex_place(n: u32, i: int) -> u32 {
    (if i == 0 {
        n as int / 0x1000_0000
    } else if i == 1 {
        n as int / 0x100_0000 % 16
    } else if i == 2 {
        n as int / 0x10_0000 % 16
    } else if i == 3 {
        n as int / 0x1_0000 % 16
    } else if i == 4 {
        n as int / 0x1000 % 16
    } else if i == 5 {
        n as int / 0x100 % 16
    } else if i == 6 {
        n as int / 0x10 % 16
    } else {
        n as int % 16
    }) as u32
}

fn push_hex_digit(out: &mut String, d: u32)
    requires
        d < 16,
    ensures
        final(out)@ == old(out)@.push(hex_digit(d)),
{
    let code: u32 = if d < 10 {
        48 + d
    } else {
        87 + d
    };
    out.push(code as u8 as char);
}

fn push_hex(out: &mut String, n: u32)
    ensures
        final(out)@ == old(out)@ + hex_text(n),
{
    push_hex_digit(out, n / 0x1000_0000);
    push_hex_digit(out, n / 0x100_0000 % 16);
    push_hex_digit(out, n / 0x10_0000 % 16);
    push_hex_digit(out, n / 0x1_0000 % 16);
    push_hex_digit(out, n / 0x1000 % 16);
    push_hex_digit(out, n / 0x100 % 16);
    push_hex_digit(out, n / 0x10 % 16);
    push_hex_digit(out, n % 16);
    assert(out@ =~= old(out)@ + hex_text(n));
}

impl KllError {
    /// The message for the user.
    pub open spec fn text(self) -> Seq<char> {
        match self {
            KllError::TooShort => "kll_sketch: buffer too short"@,
            KllError::BadMagic { magic } => "kll_sketch: bad magic "@ + hex_text(magic),
            KllError::Truncated => "kll_sketch: truncated value list"@,
        }
    }

    /// The message for the user.
    pub fn message(&self) -> (out: String)
        ensures
            out@ == self.text(),
    {
        match self {
            KllError::TooShort => "kll_sketch: buffer too short".to_owned(),
            KllError::BadMagic { magic } => {
                let mut out = "kll_sketch: bad magic ".to_owned();
                push_hex(&mut out, *magic);
                out
            },
            KllError::Truncated => "kll_sketch: truncated value list".to_owned(),
        }
    }
}

/// The number of values that a sketch's header names.
pub open spec fn header_count(b: Seq<u8>) -> nat {
    le_value(b.subrange(4, 8))
}

/// The sample whose binary form some bytes are; what follows it is ignored.
pub open spec fn parsed(b: Seq<u8>) -> Result<Seq<Double>, KllError> {
    if b.len() < 8 {
        Err(KllError::TooShort)
    } else if le_value(b.subrange(0, 4)) != KLL_MAGIC {
        Err(KllError::BadMagic { magic: le_value(b.subrange(0, 4)) as u32 })
    } else if b.len() < 8 + 8 * header_count(b) {
        Err(KllError::Truncated)
    } else {
        Ok(doubles(words_at(b, 8, header_count(b))))
    }
}

/// A sample after states in their binary form, up to the first that is none, and why it is.
pub open spec fn states_merged(values: Seq<Double>, states: Seq<Option<Seq<u8>>>) -> (
    Seq<Double>,
    Option<KllError>,
)
    decreases states.len(),
{
    if states.len() == 0 {
        (values, None)
    } else {
        let before = states_merged(values, states.drop_last());
        if before.1 is Some {
            before
        } else {
            match states.last() {
                Some(b) => match parsed(b) {
                    Ok(other) => (settled(before.0 + other), None),
                    Err(e) => (before.0, Some(e)),
                },
                None => before,
            }
        }
    }
}

proof fn lemma_merge_stops(values: Seq<Double>, states: Seq<Option<Seq<u8>>>, n: int)
    requires
        0 <= n <= states.len(),
        states_merged(values, states.take(n)).1 is Some,
    ensures
        states_merged(values, states) == states_merged(values, states.take(n)),
    decreases states.len() - n,
{
    if n < states.len() {
        assert(states.take(n + 1).drop_last() =~= states.take(n));
        lemma_merge_stops(values, states, n + 1);
    } else {
        assert(states.take(n) =~= states);
    }
}

/// A sample of the values that were seen.
#[derive(Debug)]
pub struct KllSketch {
    values: Vec<Double>,
}

impl View for KllSketch {
    type V = Seq<Double>;

    closed spec fn view(&self) -> Seq<Double> {
        self.values@
    }
}

impl KllSketch {
    /// The sketch of nothing.
    pub fn new() -> (sketch: Self)
        ensures
            sketch@ == Seq::<Double>::empty(),
    {
        KllSketch { values: Vec::new() }
    }

    /// Takes a value.
    pub fn add(&mut self, v: Double)
        ensures
            final(self)@ == settled(old(self)@.push(v)),
    {
        self.values.push(v);
        self.settle();
    }

    fn settle(&mut self)
        ensures
            final(self)@ == settled(old(self)@),
    {
        if self.values.len() >= 2 * KLL_K {
            self.compact();
        }
    }

    fn sort(&mut self)
        ensures
            final(self)@ == stable_sorted(old(self)@),
    {
        let mut values: Vec<Double> = Vec::new();
        core::mem::swap(&mut values, &mut self.values);
        self.values = sorting::sort(values);
    }

    /// Thins the sample out: every other value in order.
    pub fn compact(&mut self)
        ensures
            final(self)@ == compacted(old(self)@),
    {
        self.sort();
        let ghost all = self.values@;
        let mut kept: Vec<Double> = Vec::new();
        let mut i: usize = 0;
        while i < self.values.len()
            invariant
                self.values@ == all,
                i <= all.len(),
                kept@.len() == (i + 1) / 2,
                forall|k: int| 0 <= k < kept@.len() ==> #[trigger] kept@[k] == all[2 * k],
            decreases all.len() - i,
        {
            if i % 2 == 0 {
                kept.push(self.values[i]);
            }
            i = i + 1;
        }
        assert(kept@ =~= every_other(all));
        self.values = kept;
    }

    /// Takes the values of another sketch.
    pub fn merge(&mut self, other: &KllSketch)
        ensures
            final(self)@ == settled(old(self)@ + other@),
    {
        let ghost start = self.values@;
        let mut i: usize = 0;
        assert(start + other.values@.take(0) =~= start);
        while i < other.values.len()
            invariant
                i <= other.values@.len(),
                self.values@ == start + other.values@.take(i as int),
            decreases other.values@.len() - i,
        {
            self.values.push(other.values[i]);
            assert(start + other.values@.take(i + 1) =~= (start + other.values@.take(
                i as int,
            )).push(other.values@[i as int]));
            i = i + 1;
        }
        assert(other.values@.take(i as int) =~= other.values@);
        self.settle();
    }

    /// Takes the sketches of states in their binary form, but for those that are null, up to the
    /// first that is none.
    pub fn merge_states(&mut self, states: &[Option<Vec<u8>>]) -> (result: Result<(), KllError>)
        ensures
            ({
                let run = states_merged(old(self)@, state_models(states@));
                &&& final(self)@ == run.0
                &&& result == match run.1 {
                    Some(e) => Err::<(), KllError>(e),
                    None => Ok::<(), KllError>(()),
                }
            }),
    {
        let ghost start = self@;
        let ghost models = state_models(states@);
        let mut i: usize = 0;
        assert(models.take(0) =~= Seq::<Option<Seq<u8>>>::empty());
        while i < states.len()
            invariant
                i <= states@.len(),
                models == state_models(states@),
                start == old(self)@,
                states_merged(start, models.take(i as int)) == (self@, None::<KllError>),
            decreases states@.len() - i,
        {
            proof {
                assert(models.take(i + 1).drop_last() =~= models.take(i as int));
                assert(models.take(i + 1).last() == models[i as int]);
            }
            match &states[i] {
                Some(b) => match KllSketch::deserialize(b.as_slice()) {
                    Ok(other) => self.merge(&other),
                    Err(e) => {
                        proof {
                            lemma_merge_stops(start, models, i + 1);
                        }
                        return Err(e);
                    },
                },
                None => {},
            }
            i = i + 1;
        }
        assert(models.take(i as int) =~= models);
        Ok(())
    }

    /// The number of values in the sample.
    pub fn len(&self) -> (n: usize)
        ensures
            n == self@.len(),
    {
        self.values.len()
    }

    /// The value with a position in order, or the last; none where there is none.
    pub fn quantile(&mut self, position: usize) -> (value: Option<Double>)
        ensures
            old(self)@.len() == 0 ==> final(self)@ == old(self)@ && value is None,
            old(self)@.len() > 0 ==> {
                let sorted = stable_sorted(old(self)@);
                &&& final(self)@ == sorted
                &&& value == Some(
                    sorted[if position < sorted.len() {
                        position as int
                    } else {
                        sorted.len() - 1
                    }],
                )
            },
    {
        if self.values.len() == 0 {
            return None;
        }
        proof {
            sorting::lemma_stable_sorted(self.values@);
        }
        self.sort();
        let last: usize = self.values.len() - 1;
        if position < last {
            Some(self.values[position])
        } else {
            Some(self.values[last])
        }
    }

    /// The binary form.
    pub fn serialize(&self) -> (out: Vec<u8>)
        ensures
            out@ == kll_bytes(self@),
    {
        let mut out: Vec<u8> = Vec::new();
        bytes::push_u32_le(&mut out, KLL_MAGIC);
        bytes::push_u32_le(&mut out, self.values.len() as u32);
        let mut words: Vec<u64> = Vec::new();
        let mut i: usize = 0;
        while i < self.values.len()
            invariant
                i <= self.values@.len(),
                words@.len() == i,
                forall|k: int| 0 <= k < i ==> #[trigger] words@[k] == self.values@[k].bits,
            decreases self.values@.len() - i,
        {
            words.push(self.values[i].bits);
            i = i + 1;
        }
        assert(words@ =~= bits(self.values@));
        bytes::push_words(&mut out, words.as_slice());
        assert(out@ =~= kll_bytes(self@));
        out
    }

    /// The sketch of a binary form.
    pub fn deserialize(b: &[u8]) -> (result: Result<KllSketch, KllError>)
        ensures
            match result {
                Ok(sketch) => parsed(b@) == Ok::<Seq<Double>, KllError>(sketch@),
                Err(e) => parsed(b@) == Err::<Seq<Double>, KllError>(e),
            },
    {
        if b.len() < 8 {
            return Err(KllError::TooShort);
        }
        let magic: u32 = bytes::read_u32_le(b, 0);
        if magic != KLL_MAGIC {
            return Err(KllError::BadMagic { magic });
        }
        let count: u32 = bytes::read_u32_le(b, 4);
        if (b.len() as u64) < 8 + 8 * (count as u64) {
            return Err(KllError::Truncated);
        }
        let words = bytes::read_words(b, 8, count as usize);
        let mut values: Vec<Double> = Vec::new();
        let mut i: usize = 0;
        while i < words.len()
            invariant
                i <= words@.len(),
                values@.len() == i,
                forall|k: int|
                    0 <= k < i ==> #[trigger] values@[k] == (Double { bits: words@[k] }),
            decreases words@.len() - i,
        {
            values.push(Double { bits: words[i] });
            i = i + 1;
        }
        assert(values@ =~= doubles(words@));
        Ok(KllSketch { values })
    }
}

/// Reading the binary form of a sketch gives the sketch back.
pub proof fn law_sketch_round_trip(values: Seq<Double>)
    requires
        values.len() <= u32::MAX,
    ensures
        parsed(kll_bytes(values)) == Ok::<Seq<Double>, KllError>(values),
{
    let count = values.len() as u32;
    let b = kll_bytes(values);
    let magic = le_bytes(KLL_MAGIC as nat, 4);
    let number = le_bytes(count as nat, 4);
    law_u32_bytes_round_trip(KLL_MAGIC);
    law_u32_bytes_round_trip(count);
    let head = magic + number;
    lemma_words_round_trip(head, bits(values));
    assert(b.subrange(0, 4) =~= magic);
    assert(b.subrange(4, 8) =~= number);
    assert(b =~= head + word_bytes(bits(values)));
    assert(doubles(bits(values)) =~= values);
}

/// A sketch that took one value at a time never holds as many as fill it.
pub proof fn law_sketch_stays_small(values: Seq<Double>, v: Double)
    requires
        values.len() < 2 * KLL_K,
    ensures
        settled(values.push(v)).len() < 2 * KLL_K,
{
    sorting::lemma_stable_sorted(values.push(v));
}

/// A sketch holds only values that it took: each value of a sample after one more, or after those
/// of another, is one of them.
pub proof fn law_sketch_holds_what_it_took(values: Seq<Double>, v: Double)
    requires
        settled(values).contains(v),
    ensures
        values.contains(v),
{
    broadcast use vstd::seq_lib::group_to_multiset_ensures;

    if values.len() >= 2 * KLL_K {
        let sorted = stable_sorted(values);
        sorting::lemma_stable_sorted(values);
        let i = every_other(sorted).index_of(v);
        assert(sorted[2 * i] == v);
        assert(sorted.contains(v));
        assert(sorted.to_multiset().count(v) > 0);
        assert(values.to_multiset().count(v) > 0);
    }
}

/// Numbers are ordered by their sign first: below zero by falling, from zero on by rising bits.
pub proof fn law_doubles_are_ordered_by_sign_and_size(a: Double, b: Double)
    ensures
        ({
            let sign: u64 = 0x8000_0000_0000_0000;
            &&& a.bits >= sign && b.bits < sign ==> a.ranks(&b) && !b.ranks(&a)
            &&& a.bits < sign && b.bits < sign ==> (a.ranks(&b) <==> a.bits <= b.bits)
            &&& a.bits >= sign && b.bits >= sign ==> (a.ranks(&b) <==> a.bits >= b.bits)
            &&& a.ranks(&b) && b.ranks(&a) ==> a == b
        }),
{
}

/// A sketch is compacted when it holds twice what it aims at: of its values in order it keeps every
/// other one, from the smallest on.
pub proof fn law_full_sketches_keep_every_other_value(values: Seq<Double>, i: int)
    ensures
        values.len() < 400 ==> settled(values) == values,
        values.len() >= 400 ==> settled(values) == compacted(values),
        compacted(values).len() == (values.len() + 1) / 2,
        0 <= i < compacted(values).len() ==> 2 * i < values.len() && compacted(values)[i]
            == stable_sorted(values)[2 * i],
        0 < i < compacted(values).len() ==> compacted(values)[i - 1].place()
            <= compacted(values)[i].place(),
{
    law_sorted_values_are_in_order(values);
    if 0 < i < compacted(values).len() {
        let all = stable_sorted(values);
        assert(all[2 * (i - 1)].ranks(&all[2 * i]));
    }
}

/// States are merged one after the other; those that are missing add nothing, and the first that
/// cannot be read ends the merge with what was merged before it.
pub proof fn law_states_are_merged_in_order(
    values: Seq<Double>,
    states: Seq<Option<Seq<u8>>>,
    state: Option<Seq<u8>>,
)
    ensures
        states_merged(values, Seq::empty()) == (values, None::<KllError>),
        ({
            let before = states_merged(values, states);
            let after = states_merged(values, states.push(state));
            &&& before.1 is Some || state is None ==> after == before
            &&& before.1 is None && state is Some ==> match parsed(state->0) {
                Ok(other) => after == (settled(before.0 + other), None::<KllError>),
                Err(e) => after == (before.0, Some(e)),
            }
        }),
{
    assert(states.push(state).drop_last() =~= states);
}

/// The digits in base sixteen give the number.
pub proof fn law_hex_digits_give_the_number(n: u32)
    ensures
        n == hex_place(n, 0) * 0x1000_0000 + hex_place(n, 1) * 0x100_0000 + hex_place(n, 2)
            * 0x10_0000 + hex_place(n, 3) * 0x1_0000 + hex_place(n, 4) * 0x1000 + hex_place(n, 5)
            * 0x100 + hex_place(n, 6) * 0x10 + hex_place(n, 7),
        hex_text(n).len() == 8,
{
    let a = n as int / 0x10;
    let b = n as int / 0x100;
    let c = n as int / 0x1000;
    let d = n as int / 0x1_0000;
    let e = n as int / 0x10_0000;
    let f = n as int / 0x100_0000;
    let g = n as int / 0x1000_0000;
    assert(b == a / 16 && c == b / 16 && d == c / 16 && e == d / 16 && f == e / 16 && g == f / 16);
    assert(n == 16 * a + n as int % 16);
    assert(a == 16 * b + a % 16);
    assert(b == 16 * c + b % 16);
    assert(c == 16 * d + c % 16);
    assert(d == 16 * e + d % 16);
    assert(e == 16 * f + e % 16);
    assert(f == 16 * g + f % 16);
    assert(hex_place(n, 7) == n as int % 16 && hex_place(n, 6) == a % 16 && hex_place(n, 5) == b
        % 16 && hex_place(n, 4) == c % 16);
    assert(hex_place(n, 3) == d % 16 && hex_place(n, 2) == e % 16 && hex_place(n, 1) == f % 16
        && hex_place(n, 0) == g);
}

/// Each digit in base sixteen is written as a figure below ten and as a small letter from ten on.
pub proof fn law_hex_digits_are_figures_and_letters(d: u32)
    ensures
        d < 10 ==> '0' <= hex_digit(d) <= '9' && hex_digit(d) as u32 - '0' as u32 == d,
        10 <= d < 16 ==> 'a' <= hex_digit(d) <= 'f' && hex_digit(d) as u32 - 'a' as u32 + 10 == d,
{
}

/// What cannot be read as a sketch: too short for a head, without the mark at its start, or shorter
/// than its head says.
pub proof fn law_damaged_sketches_are_refused(b: Seq<u8>)
    ensures
        parsed(b) == Err::<Seq<Double>, KllError>(KllError::TooShort) <==> b.len() < 8,
        b.len() >= 8 ==> (parsed(b) is Err && parsed(b)->Err_0 is BadMagic <==> b.subrange(0, 4)
            != seq![0x53u8, 0x4Cu8, 0x4Cu8, 0x4Bu8]),
        parsed(b) is Ok ==> b.len() >= 8 + 8 * parsed(b)->Ok_0.len(),
        forall|values: Seq<Double>|
            values.len() <= u32::MAX ==> #[trigger] kll_bytes(values).len() == 8 + 8 * values.len(),
{
    if b.len() >= 8 {
        let head = b.subrange(0, 4);
        let mark = seq![0x53u8, 0x4Cu8, 0x4Cu8, 0x4Bu8];
        lemma_le_bytes_of_value(head);
        lemma_le_bytes_of_value(mark);
        reveal_with_fuel(le_value, 5);
        assert(mark.skip(1).skip(1).skip(1).skip(1) =~= Seq::<u8>::empty());
        assert(mark.skip(1)[0] == 0x4C && mark.skip(1).skip(1)[0] == 0x4C && mark.skip(1).skip(
            1,
        ).skip(1)[0] == 0x4B);
        assert(le_value(mark) == 0x4B4C_4C53);
    }
    assert forall|values: Seq<Double>|
        values.len() <= u32::MAX implies #[trigger] kll_bytes(values).len() == 8 + 8
        * values.len() by {
        law_u32_bytes_round_trip(values.len() as u32);
        law_u32_bytes_round_trip(KLL_MAGIC);
        if values.len() > 0 {
            law_words_stand_in_order(bits(values), 0);
        }
    }
}

} // verus!
