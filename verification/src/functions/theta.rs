//! Theta sketches: the smallest hashes of the values that were seen, from which their number is
//! estimated.
//!
//! The binary form is, in little-endian order: a magic number (4 bytes), the number of hashes
//! (4 bytes), theta (8 bytes) and the hashes (8 bytes each).

use vstd::prelude::*;

use crate::bytes;
use crate::bytes::{
    law_u32_bytes_round_trip, law_u64_bytes_round_trip, le_bound, le_bytes, le_value,
    lemma_le_value_bound, lemma_words_round_trip,
    word_bytes, words_at,
};

verus! {

/// The number of hashes that a sketch keeps.
pub const THETA_K: usize = 4096;

/// The first four bytes of a sketch.
pub const THETA_MAGIC: u32 = 0x5448_4554;

/// Whether hashes are in ascending order, each once.
pub open spec fn ascending(s: Seq<u64>) -> bool {
    forall|i: int, j: int| 0 <= i < j < s.len() ==> s[i] < s[j]
}

/// Ascending hashes with one more, where it is new.
pub open spec fn with_hash(s: Seq<u64>, h: u64) -> Seq<u64>
    decreases s.len(),
{
    if s.len() == 0 {
        seq![h]
    } else if s.last() < h {
        s.push(h)
    } else if s.last() == h {
        s
    } else {
        with_hash(s.drop_last(), h).push(s.last())
    }
}

/// The hashes in ascending order, each once.
pub open spec fn distinct(hashes: Seq<u64>) -> Seq<u64>
    decreases hashes.len(),
{
    if hashes.len() == 0 {
        Seq::empty()
    } else {
        with_hash(distinct(hashes.drop_last()), hashes.last())
    }
}

proof fn lemma_with_hash(s: Seq<u64>, h: u64)
    requires
        ascending(s),
    ensures
        ascending(with_hash(s, h)),
        with_hash(s, h).to_set() == s.to_set().insert(h),
        s.contains(h) ==> with_hash(s, h) == s,
        !s.contains(h) ==> with_hash(s, h).len() == s.len() + 1,
        forall|b: u64|
            #![trigger with_hash(s, h).contains(b)]
            with_hash(s, h).contains(b) <==> s.contains(b) || b == h,
    decreases s.len(),
{
    let w = with_hash(s, h);
    if s.len() == 0 {
        assert(w[0] == h);
        assert(w.to_set() =~= s.to_set().insert(h));
    } else if s.last() < h {
        assert forall|b: u64| #![trigger w.contains(b)] w.contains(b) <==> s.contains(b) || b
            == h by {
            if s.contains(b) {
                let i = s.index_of(b);
                assert(w[i] == b);
            }
            if b == h {
                assert(w[s.len() as int] == h);
            }
        }
        if s.contains(h) {
            let i = s.index_of(h);
            assert(s[i] <= s.last());
        }
        assert(w.to_set() =~= s.to_set().insert(h));
    } else if s.last() == h {
        assert(s[s.len() - 1] == h);
        assert(w.to_set() =~= s.to_set().insert(h));
    } else {
        let t = s.drop_last();
        let last = s.last();
        lemma_with_hash(t, h);
        let v = with_hash(t, h);
        assert forall|b: u64| #![trigger w.contains(b)] w.contains(b) <==> s.contains(b) || b
            == h by {
            if w.contains(b) {
                let i = w.index_of(b);
                if i < v.len() {
                    assert(v[i] == b);
                    assert(v.contains(b));
                    if t.contains(b) {
                        let j = t.index_of(b);
                        assert(s[j] == b);
                    }
                } else {
                    assert(s[s.len() - 1] == b);
                }
            }
            if s.contains(b) {
                let i = s.index_of(b);
                if i < t.len() {
                    assert(t[i] == b);
                    assert(v.contains(b));
                    let j = v.index_of(b);
                    assert(w[j] == b);
                } else {
                    assert(w[v.len() as int] == b);
                }
            }
            if b == h {
                assert(v.contains(b));
                let j = v.index_of(b);
                assert(w[j] == b);
            }
        }
        assert forall|i: int, j: int| 0 <= i < j < w.len() implies w[i] < w[j] by {
            if j == v.len() {
                assert(v.contains(v[i]));
                if t.contains(v[i]) {
                    let k = t.index_of(v[i]);
                    assert(s[k] < s[s.len() - 1]);
                }
            }
        }
        assert(t.contains(h) <==> s.contains(h)) by {
            if t.contains(h) {
                let i = t.index_of(h);
                assert(s[i] == h);
            }
            if s.contains(h) {
                let i = s.index_of(h);
                assert(t[i] == h);
            }
        }
        if s.contains(h) {
            assert(w =~= s);
        }
        assert(w.to_set() =~= s.to_set().insert(h));
    }
}

proof fn lemma_distinct(hashes: Seq<u64>)
    ensures
        ascending(distinct(hashes)),
        distinct(hashes).len() <= hashes.len(),
        distinct(hashes).to_set() == hashes.to_set(),
    decreases hashes.len(),
{
    if hashes.len() > 0 {
        lemma_distinct(hashes.drop_last());
        lemma_with_hash(distinct(hashes.drop_last()), hashes.last());
        let rest = hashes.drop_last();
        assert(hashes.to_set() =~= rest.to_set().insert(hashes.last())) by {
            assert forall|b: u64| hashes.contains(b) <==> rest.contains(b) || b
                == hashes.last() by {
                if hashes.contains(b) {
                    let i = hashes.index_of(b);
                    if i < rest.len() {
                        assert(rest[i] == b);
                    }
                }
                if rest.contains(b) {
                    let i = rest.index_of(b);
                    assert(hashes[i] == b);
                }
                if b == hashes.last() {
                    assert(hashes[hashes.len() - 1] == b);
                }
            }
        }
    } else {
        assert(distinct(hashes).to_set() =~= hashes.to_set());
    }
}

proof fn lemma_distinct_of_ascending(s: Seq<u64>)
    requires
        ascending(s),
    ensures
        distinct(s) == s,
    decreases s.len(),
{
    if s.len() > 0 {
        lemma_distinct_of_ascending(s.drop_last());
        let t = s.drop_last();
        if t.len() > 0 {
            assert(t.last() == s[s.len() - 2]);
        }
        assert(with_hash(t, s.last()) =~= s);
    }
}

fn insert_hash(hashes: &mut Vec<u64>, h: u64)
    requires
        ascending(old(hashes)@),
    ensures
        final(hashes)@ == with_hash(old(hashes)@, h),
        ascending(final(hashes)@),
{
    let ghost s = hashes@;
    let mut at: usize = hashes.len();
    proof {
        lemma_with_hash(s, h);
        assert(s.take(at as int) =~= s);
        assert(with_hash(s, h) =~= with_hash(s.take(at as int), h) + s.skip(at as int));
    }
    while at > 0 && hashes[at - 1] > h
        invariant
            hashes@ == s,
            at <= s.len(),
            with_hash(s, h) == with_hash(s.take(at as int), h) + s.skip(at as int),
        decreases at,
    {
        proof {
            let t = s.take(at as int);
            assert(t.drop_last() =~= s.take(at - 1));
            assert(t.last() == s[at - 1]);
            assert(with_hash(t, h) + s.skip(at as int) =~= with_hash(s.take(at - 1), h) + s.skip(
                at - 1,
            ));
        }
        at = at - 1;
    }
    let ghost t = s.take(at as int);
    if at > 0 && hashes[at - 1] == h {
        proof {
            assert(t.last() == h);
            assert(s =~= t + s.skip(at as int));
        }
        return;
    }
    proof {
        if at == 0 {
            assert(t =~= Seq::<u64>::empty());
        } else {
            assert(t.last() == s[at - 1]);
        }
        assert(with_hash(t, h) =~= t.push(h));
    }
    hashes.insert(at, h);
    assert(hashes@ =~= with_hash(s, h));
}

/// The hashes in ascending order, each once.
pub fn collect_distinct(hashes: &[u64]) -> (out: Vec<u64>)
    ensures
        out@ == distinct(hashes@),
        ascending(out@),
{
    let mut out: Vec<u64> = Vec::new();
    let mut i: usize = 0;
    assert(hashes@.take(0) =~= Seq::<u64>::empty());
    while i < hashes.len()
        invariant
            i <= hashes@.len(),
            out@ == distinct(hashes@.take(i as int)),
            ascending(out@),
        decreases hashes@.len() - i,
    {
        assert(hashes@.take(i + 1).drop_last() =~= hashes@.take(i as int));
        assert(hashes@.take(i + 1).last() == hashes@[i as int]);
        insert_hash(&mut out, hashes[i]);
        i = i + 1;
    }
    assert(hashes@.take(i as int) =~= hashes@);
    out
}

/// The hashes up to a bound.
pub open spec fn up_to(hashes: Seq<u64>, theta: u64) -> Seq<u64>
    decreases hashes.len(),
{
    if hashes.len() == 0 {
        Seq::empty()
    } else {
        let before = up_to(hashes.drop_last(), theta);
        if hashes.last() <= theta {
            before.push(hashes.last())
        } else {
            before
        }
    }
}

/// The hashes up to a bound are those of the given ones that are no larger, in their order.
pub proof fn lemma_up_to(hashes: Seq<u64>, theta: u64)
    ensures
        forall|b: u64|
            #![trigger up_to(hashes, theta).contains(b)]
            up_to(hashes, theta).contains(b) <==> hashes.contains(b) && b <= theta,
        ascending(hashes) ==> ascending(up_to(hashes, theta)),
        up_to(hashes, theta).len() <= hashes.len(),
    decreases hashes.len(),
{
    if hashes.len() > 0 {
        let t = hashes.drop_last();
        lemma_up_to(t, theta);
        let v = up_to(t, theta);
        let w = up_to(hashes, theta);
        assert forall|b: u64| #![trigger w.contains(b)] w.contains(b) <==> hashes.contains(b) && b
            <= theta by {
            if w.contains(b) {
                let i = w.index_of(b);
                if i < v.len() {
                    assert(v[i] == b);
                    assert(v.contains(b));
                    let j = t.index_of(b);
                    assert(hashes[j] == b);
                } else {
                    assert(hashes[hashes.len() - 1] == b);
                }
            }
            if hashes.contains(b) && b <= theta {
                let i = hashes.index_of(b);
                if i < t.len() {
                    assert(t[i] == b);
                    assert(v.contains(b));
                    let j = v.index_of(b);
                    assert(w[j] == b);
                } else {
                    assert(w[v.len() as int] == b);
                }
            }
        }
        if ascending(hashes) {
            assert(ascending(t));
            assert forall|i: int, j: int| 0 <= i < j < w.len() implies w[i] < w[j] by {
                if j == v.len() {
                    assert(v.contains(v[i]));
                    let k = t.index_of(v[i]);
                    assert(hashes[k] < hashes[hashes.len() - 1]);
                }
            }
        }
    }
}

/// The hashes up to a bound.
pub fn keep_up_to(hashes: &[u64], theta: u64) -> (out: Vec<u64>)
    ensures
        out@ == up_to(hashes@, theta),
{
    let mut out: Vec<u64> = Vec::new();
    let mut i: usize = 0;
    assert(hashes@.take(0) =~= Seq::<u64>::empty());
    while i < hashes.len()
        invariant
            i <= hashes@.len(),
            out@ == up_to(hashes@.take(i as int), theta),
        decreases hashes@.len() - i,
    {
        assert(hashes@.take(i + 1).drop_last() =~= hashes@.take(i as int));
        assert(hashes@.take(i + 1).last() == hashes@[i as int]);
        if hashes[i] <= theta {
            out.push(hashes[i]);
        }
        i = i + 1;
    }
    assert(hashes@.take(i as int) =~= hashes@);
    out
}

/// The hashes of a sketch in ascending order, and theta: the largest where the sketch is full, else
/// the largest number.
#[verifier::ext_equal]
pub struct ThetaModel {
    pub hashes: Seq<u64>,
    pub theta: u64,
}

/// The sketch of nothing.
pub open spec fn empty_sketch() -> ThetaModel {
    ThetaModel { hashes: Seq::empty(), theta: u64::MAX }
}

/// A sketch after one more hash.
pub open spec fn with_value(m: ThetaModel, h: u64) -> ThetaModel {
    if h >= m.theta {
        m
    } else {
        let grown = with_hash(m.hashes, h);
        if grown.len() > THETA_K {
            ThetaModel { hashes: grown.drop_last(), theta: grown.drop_last().last() }
        } else {
            ThetaModel { hashes: grown, ..m }
        }
    }
}

/// A sketch after more hashes.
pub open spec fn with_values(m: ThetaModel, hashes: Seq<u64>) -> ThetaModel
    decreases hashes.len(),
{
    if hashes.len() == 0 {
        m
    } else {
        with_value(with_values(m, hashes.drop_last()), hashes.last())
    }
}

/// The smaller of two numbers.
pub open spec fn smaller(a: u64, b: u64) -> u64 {
    if a <= b {
        a
    } else {
        b
    }
}

/// A sketch after the hashes of another; those above the smaller theta are dropped.
pub open spec fn merged(m: ThetaModel, other: ThetaModel) -> ThetaModel {
    let grown = with_values(m, other.hashes);
    let theta = smaller(grown.theta, other.theta);
    ThetaModel { hashes: up_to(grown.hashes, theta), theta }
}

/// States in their binary form.
pub open spec fn state_models(states: Seq<Option<Vec<u8>>>) -> Seq<Option<Seq<u8>>> {
    states.map_values(
        |s: Option<Vec<u8>>|
            match s {
                Some(b) => Some(b@),
                None => None::<Seq<u8>>,
            },
    )
}

/// A sketch after states in their binary form, up to the first that is none, and why it is.
pub open spec fn states_merged(m: ThetaModel, states: Seq<Option<Seq<u8>>>) -> (
    ThetaModel,
    Option<ThetaError>,
)
    decreases states.len(),
{
    if states.len() == 0 {
        (m, None)
    } else {
        let before = states_merged(m, states.drop_last());
        if before.1 is Some {
            before
        } else {
            match states.last() {
                Some(b) => match parsed(b) {
                    Ok(other) => (merged(before.0, other), None),
                    Err(e) => (before.0, Some(e)),
                },
                None => before,
            }
        }
    }
}

proof fn lemma_merge_stops(m: ThetaModel, states: Seq<Option<Seq<u8>>>, n: int)
    requires
        0 <= n <= states.len(),
        states_merged(m, states.take(n)).1 is Some,
    ensures
        states_merged(m, states) == states_merged(m, states.take(n)),
    decreases states.len() - n,
{
    if n < states.len() {
        assert(states.take(n + 1).drop_last() =~= states.take(n));
        lemma_merge_stops(m, states, n + 1);
    } else {
        assert(states.take(n) =~= states);
    }
}

/// The binary form of a sketch.
pub open spec fn sketch_bytes(m: ThetaModel) -> Seq<u8> {
    le_bytes(THETA_MAGIC as nat, 4) + le_bytes((m.hashes.len() as u32) as nat, 4) + le_bytes(
        m.theta as nat,
        8,
    ) + word_bytes(m.hashes)
}

/// Why bytes are no sketch.
#[derive(Debug, Clone, Copy, PartialEq, Eq, Structural)]
pub enum ThetaError {
    TooShort,
    BadMagic,
    Truncated,
}

impl ThetaError {
    /// The message for the user.
    pub open spec fn text(self) -> Seq<char> {
        match self {
            ThetaError::TooShort => "theta sketch: buffer too short"@,
            ThetaError::BadMagic => "theta sketch: bad magic"@,
            ThetaError::Truncated => "theta sketch: truncated hash list"@,
        }
    }

    /// The message for the user.
    pub fn message(&self) -> (out: String)
        ensures
            out@ == self.text(),
    {
        match self {
            ThetaError::TooShort => "theta sketch: buffer too short".to_owned(),
            ThetaError::BadMagic => "theta sketch: bad magic".to_owned(),
            ThetaError::Truncated => "theta sketch: truncated hash list".to_owned(),
        }
    }
}

/// The number of hashes that a sketch's header names.
pub open spec fn header_count(b: Seq<u8>) -> nat {
    le_value(b.subrange(4, 8))
}

/// The theta of a sketch's header.
pub open spec fn header_theta(b: Seq<u8>) -> u64 {
    le_value(b.subrange(8, 16)) as u64
}

/// The sketch whose binary form some bytes are; what follows it is ignored.
pub open spec fn parsed(b: Seq<u8>) -> Result<ThetaModel, ThetaError> {
    if b.len() < 16 {
        Err(ThetaError::TooShort)
    } else if le_value(b.subrange(0, 4)) != THETA_MAGIC {
        Err(ThetaError::BadMagic)
    } else if b.len() < 16 + 8 * header_count(b) {
        Err(ThetaError::Truncated)
    } else {
        Ok(
            ThetaModel {
                hashes: distinct(words_at(b, 16, header_count(b))),
                theta: header_theta(b),
            },
        )
    }
}

/// How the number of values of a sketch is estimated.
#[derive(Debug, Clone, Copy, PartialEq, Eq, Structural)]
pub enum ThetaEstimate {
    /// It is known.
    Exact { count: u64 },
    /// It is the number of hashes over the part of all hashes that lies below theta.
    Scaled { count: u64, theta: u64 },
}

/// The smallest hashes of the values that were seen.
#[derive(Debug)]
pub struct ThetaSketch {
    hashes: Vec<u64>,
    theta: u64,
}

impl View for ThetaSketch {
    type V = ThetaModel;

    closed spec fn view(&self) -> ThetaModel {
        ThetaModel { hashes: self.hashes@, theta: self.theta }
    }
}

impl ThetaSketch {
    #[verifier::type_invariant]
    spec fn inv(&self) -> bool {
        ascending(self.hashes@)
    }

    /// The sketch of nothing.
    pub fn new() -> (sketch: Self)
        ensures
            sketch@ == empty_sketch(),
    {
        ThetaSketch { hashes: Vec::new(), theta: u64::MAX }
    }

    /// Takes the hash of a value.
    pub fn insert(&mut self, h: u64)
        ensures
            final(self)@ == with_value(old(self)@, h),
    {
        if h >= self.theta {
            return;
        }
        proof {
            use_type_invariant(&*self);
        }
        let mut hashes: Vec<u64> = Vec::new();
        core::mem::swap(&mut hashes, &mut self.hashes);
        insert_hash(&mut hashes, h);
        let ghost grown = hashes@;
        let mut theta: u64 = self.theta;
        if hashes.len() > THETA_K {
            hashes.pop();
            theta = hashes[hashes.len() - 1];
            assert(hashes@ =~= grown.drop_last());
        }
        self.hashes = hashes;
        self.theta = theta;
    }

    /// Takes the hashes of another sketch.
    pub fn merge(&mut self, other: &ThetaSketch)
        ensures
            final(self)@ == merged(old(self)@, other@),
    {
        let ghost start = self@;
        let mut i: usize = 0;
        assert(other.hashes@.take(0) =~= Seq::<u64>::empty());
        while i < other.hashes.len()
            invariant
                i <= other.hashes@.len(),
                self@ == with_values(start, other.hashes@.take(i as int)),
            decreases other.hashes@.len() - i,
        {
            proof {
                let next = other.hashes@.take(i + 1);
                assert(next.drop_last() =~= other.hashes@.take(i as int));
                assert(next.last() == other.hashes@[i as int]);
            }
            self.insert(other.hashes[i]);
            i = i + 1;
        }
        assert(other.hashes@.take(i as int) =~= other.hashes@);
        let theta: u64 = if self.theta <= other.theta {
            self.theta
        } else {
            other.theta
        };
        proof {
            use_type_invariant(&*self);
            lemma_up_to(self.hashes@, theta);
        }
        let hashes = keep_up_to(self.hashes.as_slice(), theta);
        self.hashes = hashes;
        self.theta = theta;
    }

    /// Takes the sketches of states in their binary form, but for those that are null, up to the
    /// first that is none.
    pub fn merge_states(&mut self, states: &[Option<Vec<u8>>]) -> (result: Result<(), ThetaError>)
        ensures
            ({
                let run = states_merged(old(self)@, state_models(states@));
                &&& final(self)@ == run.0
                &&& result == match run.1 {
                    Some(e) => Err::<(), ThetaError>(e),
                    None => Ok::<(), ThetaError>(()),
                }
            }),
    {
        let ghost start = self@;
        let ghost models = state_models(states@);
        let mut i: usize = 0;
        assert(models.take(0) =~= Seq::<Option<Seq<u8>>>::empty());
        while i < states.len()
            invariant
                i <= states@.len(),
                models == state_models(states@),
                start == old(self)@,
                states_merged(start, models.take(i as int)) == (self@, None::<ThetaError>),
            decreases states@.len() - i,
        {
            proof {
                assert(models.take(i + 1).drop_last() =~= models.take(i as int));
                assert(models.take(i + 1).last() == models[i as int]);
            }
            match &states[i] {
                Some(b) => match ThetaSketch::deserialize(b.as_slice()) {
                    Ok(other) => self.merge(&other),
                    Err(e) => {
                        proof {
                            lemma_merge_stops(start, models, i + 1);
                        }
                        return Err(e);
                    },
                },
                None => {},
            }
            i = i + 1;
        }
        assert(models.take(i as int) =~= models);
        Ok(())
    }

    /// How the number of values is estimated.
    pub fn estimate(&self) -> (estimate: ThetaEstimate)
        ensures
            estimate == if self@.hashes.len() < THETA_K {
                ThetaEstimate::Exact { count: self@.hashes.len() as u64 }
            } else {
                ThetaEstimate::Scaled { count: self@.hashes.len() as u64, theta: self@.theta }
            },
    {
        let count: u64 = self.hashes.len() as u64;
        if self.hashes.len() < THETA_K {
            ThetaEstimate::Exact { count }
        } else {
            ThetaEstimate::Scaled { count, theta: self.theta }
        }
    }

    /// The binary form.
    pub fn serialize(&self) -> (out: Vec<u8>)
        ensures
            out@ == sketch_bytes(self@),
    {
        let mut out: Vec<u8> = Vec::new();
        bytes::push_u32_le(&mut out, THETA_MAGIC);
        bytes::push_u32_le(&mut out, self.hashes.len() as u32);
        bytes::push_u64_le(&mut out, self.theta);
        bytes::push_words(&mut out, self.hashes.as_slice());
        assert(out@ =~= sketch_bytes(self@));
        out
    }

    /// The sketch of a binary form.
    pub fn deserialize(b: &[u8]) -> (result: Result<ThetaSketch, ThetaError>)
        ensures
            match result {
                Ok(sketch) => parsed(b@) == Ok::<ThetaModel, ThetaError>(sketch@),
                Err(e) => parsed(b@) == Err::<ThetaModel, ThetaError>(e),
            },
    {
        if b.len() < 16 {
            return Err(ThetaError::TooShort);
        }
        if bytes::read_u32_le(b, 0) != THETA_MAGIC {
            return Err(ThetaError::BadMagic);
        }
        let count: u32 = bytes::read_u32_le(b, 4);
        let theta: u64 = bytes::read_u64_le(b, 8);
        if (b.len() as u64) < 16 + 8 * (count as u64) {
            return Err(ThetaError::Truncated);
        }
        let words = bytes::read_words(b, 16, count as usize);
        let hashes = collect_distinct(words.as_slice());
        Ok(ThetaSketch { hashes, theta })
    }
}

/// Reading the binary form of a sketch gives the sketch back.
pub proof fn law_sketch_round_trip(m: ThetaModel)
    requires
        ascending(m.hashes),
        m.hashes.len() <= u32::MAX,
    ensures
        parsed(sketch_bytes(m)) == Ok::<ThetaModel, ThetaError>(m),
{
    let count = m.hashes.len() as u32;
    let b = sketch_bytes(m);
    let magic = le_bytes(THETA_MAGIC as nat, 4);
    let number = le_bytes(count as nat, 4);
    let theta = le_bytes(m.theta as nat, 8);
    law_u32_bytes_round_trip(THETA_MAGIC);
    law_u32_bytes_round_trip(count);
    law_u64_bytes_round_trip(m.theta);
    let head = magic + number + theta;
    lemma_words_round_trip(head, m.hashes);
    assert(b.subrange(0, 4) =~= magic);
    assert(b.subrange(4, 8) =~= number);
    assert(b.subrange(8, 16) =~= theta);
    assert(b =~= head + word_bytes(m.hashes));
    lemma_distinct_of_ascending(m.hashes);
}

/// The hashes that a sketch can hold: all but the largest number.
pub open spec fn countable(hashes: Seq<u64>) -> Seq<u64> {
    up_to(hashes, 0xffff_ffff_ffff_fffe)
}

/// The sketch of hashes, by what it keeps: the smallest of them.
pub open spec fn smallest_of(hashes: Seq<u64>) -> ThetaModel {
    let all = distinct(countable(hashes));
    if all.len() > THETA_K {
        ThetaModel { hashes: all.take(THETA_K as int), theta: all[THETA_K - 1] }
    } else {
        ThetaModel { hashes: all, theta: u64::MAX }
    }
}

proof fn lemma_with_hash_take(s: Seq<u64>, h: u64, k: int)
    requires
        ascending(s),
        0 < k <= s.len(),
    ensures
        h >= s[k - 1] ==> with_hash(s, h).take(k) == s.take(k),
        h < s[k - 1] ==> with_hash(s, h).take(k) == with_hash(s.take(k), h).take(k),
        with_hash(s, h).len() >= s.len(),
    decreases s.len(),
{
    lemma_with_hash(s, h);
    let w = with_hash(s, h);
    if k == s.len() {
        assert(s.take(k) =~= s);
        if h >= s[k - 1] {
            assert(w.take(k) =~= s.take(k));
        }
    } else {
        let t = s.drop_last();
        if s.last() <= h {
            assert(s[k - 1] <= s.last());
            assert(w.take(k) =~= s.take(k));
        } else {
            lemma_with_hash_take(t, h, k);
            let v = with_hash(t, h);
            assert(t.take(k) =~= s.take(k));
            assert(w.take(k) =~= v.take(k));
            assert(t[k - 1] == s[k - 1]);
        }
    }
}

proof fn lemma_keeps_smallest(hashes: Seq<u64>)
    ensures
        with_values(empty_sketch(), hashes) == smallest_of(hashes),
    decreases hashes.len(),
{
    if hashes.len() == 0 {
        assert(with_values(empty_sketch(), hashes) =~= smallest_of(hashes));
    } else {
        let rest = hashes.drop_last();
        let h = hashes.last();
        lemma_keeps_smallest(rest);
        let m = with_values(empty_sketch(), rest);
        let d = distinct(countable(rest));
        lemma_distinct(countable(rest));
        lemma_up_to(rest, 0xffff_ffff_ffff_fffe);
        let k = THETA_K as int;
        if h < u64::MAX {
            let more = countable(hashes);
            assert(more.drop_last() =~= countable(rest));
            assert(more.last() == h);
            let e = distinct(more);
            assert(e == with_hash(d, h));
            lemma_with_hash(d, h);
            if d.len() <= THETA_K {
                if e.len() > THETA_K {
                    assert(e.drop_last() =~= e.take(k));
                }
            } else {
                lemma_with_hash_take(d, h, k);
                let kept = d.take(k);
                assert(ascending(kept));
                lemma_with_hash(kept, h);
                let g = with_hash(kept, h);
                if h < d[k - 1] {
                    if g.len() > THETA_K {
                        assert(g.drop_last() =~= g.take(k));
                        assert(e.take(k) == g.take(k));
                        assert(e[k - 1] == e.take(k)[k - 1]);
                    } else {
                        assert(g.take(k) =~= g);
                        assert(kept.contains(h));
                        let i = kept.index_of(h);
                        assert(d[i] == h);
                        assert(d.contains(h));
                    }
                } else {
                    assert(e.take(k) == d.take(k));
                    assert(e[k - 1] == e.take(k)[k - 1]);
                    assert(d[k - 1] == d.take(k)[k - 1]);
                }
            }
        } else {
            assert(countable(hashes) == countable(rest));
            if d.len() <= THETA_K {
                assert(h >= m.theta);
            } else {
                assert(h >= m.theta);
            }
        }
        assert(with_values(empty_sketch(), hashes) =~= smallest_of(hashes));
    }
}

/// A sketch keeps the smallest hashes of all that it took, whatever their order and however often
/// they came, and theta is the largest of them once it is full. The largest number is not counted.
pub proof fn law_sketch_keeps_the_smallest_hashes(hashes: Seq<u64>)
    ensures
        with_values(empty_sketch(), hashes) == smallest_of(hashes),
{
    lemma_keeps_smallest(hashes);
}

/// While a sketch is not full it holds every hash that it took, so its number of hashes is exact.
pub proof fn law_sketch_is_exact_until_full(hashes: Seq<u64>)
    requires
        !hashes.contains(u64::MAX),
        distinct(hashes).len() <= THETA_K,
    ensures
        with_values(empty_sketch(), hashes).hashes == distinct(hashes),
        with_values(empty_sketch(), hashes).hashes.to_set() == hashes.to_set(),
        with_values(empty_sketch(), hashes).theta == u64::MAX,
{
    lemma_keeps_smallest(hashes);
    lemma_below_all(hashes);
    lemma_distinct(hashes);
}

proof fn lemma_below_all(hashes: Seq<u64>)
    requires
        !hashes.contains(u64::MAX),
    ensures
        countable(hashes) == hashes,
    decreases hashes.len(),
{
    if hashes.len() > 0 {
        let rest = hashes.drop_last();
        assert(hashes[hashes.len() - 1] != u64::MAX);
        if rest.contains(u64::MAX) {
            let i = rest.index_of(u64::MAX);
            assert(hashes[i] == u64::MAX);
        }
        lemma_below_all(rest);
        assert(countable(hashes) =~= hashes);
    } else {
        assert(countable(hashes) =~= hashes);
    }
}

proof fn lemma_ascending_unique(s: Seq<u64>, t: Seq<u64>)
    requires
        ascending(s),
        ascending(t),
        s.to_set() == t.to_set(),
    ensures
        s == t,
    decreases s.len(),
{
    if s.len() == 0 {
        if t.len() > 0 {
            assert(t.to_set().contains(t[0]));
            assert(s.to_set().contains(t[0]));
        }
        assert(s =~= t);
    } else {
        assert(s.to_set().contains(s[0]));
        assert(t.to_set().contains(s[0]));
        let x = s.last();
        let y = t.last();
        assert(s.to_set().contains(s[s.len() - 1]));
        assert(t.to_set().contains(t[t.len() - 1]));
        assert(t.contains(x));
        assert(s.contains(y));
        let i = t.index_of(x);
        let j = s.index_of(y);
        assert(t[i] <= y);
        assert(s[j] <= x);
        let a = s.drop_last();
        let b = t.drop_last();
        assert forall|h: u64| a.contains(h) <==> b.contains(h) by {
            if a.contains(h) {
                let m = a.index_of(h);
                assert(s[m] == h && h < x);
                assert(s.to_set().contains(h));
                assert(t.contains(h));
                let n = t.index_of(h);
                assert(b[n] == h);
            }
            if b.contains(h) {
                let m = b.index_of(h);
                assert(t[m] == h && h < y);
                assert(t.to_set().contains(h));
                assert(s.contains(h));
                let n = s.index_of(h);
                assert(a[n] == h);
            }
        }
        assert(a.to_set() =~= b.to_set());
        lemma_ascending_unique(a, b);
        assert(t.len() > 0);
        assert(t[i] == x && s[j] == y);
        assert(x == y);
        assert(s =~= a.push(x));
        assert(t =~= b.push(y));
    }
}

proof fn lemma_with_values_append(m: ThetaModel, a: Seq<u64>, b: Seq<u64>)
    ensures
        with_values(m, a + b) == with_values(with_values(m, a), b),
    decreases b.len(),
{
    if b.len() == 0 {
        assert(a + b =~= a);
    } else {
        lemma_with_values_append(m, a, b.drop_last());
        assert((a + b).drop_last() =~= a + b.drop_last());
        assert((a + b).last() == b.last());
    }
}

proof fn lemma_up_to_is_prefix(s: Seq<u64>, theta: u64)
    requires
        ascending(s),
    ensures
        up_to(s, theta) == s.take(up_to(s, theta).len() as int),
        up_to(s, theta).len() <= s.len(),
        s.len() > 0 && s.last() <= theta ==> up_to(s, theta) == s,
    decreases s.len(),
{
    if s.len() == 0 {
        assert(up_to(s, theta) =~= s.take(0));
    } else {
        let t = s.drop_last();
        lemma_up_to_is_prefix(t, theta);
        if s.last() <= theta {
            if t.len() > 0 {
                assert(t.last() == s[s.len() - 2]);
            }
            assert(up_to(s, theta) =~= s);
            assert(s.take(s.len() as int) =~= s);
        } else {
            let n = up_to(t, theta).len() as int;
            assert(s.take(n) =~= t.take(n));
        }
    }
}

proof fn lemma_set_of_distinct(hashes: Seq<u64>, h: u64)
    ensures
        distinct(hashes).contains(h) <==> hashes.contains(h),
{
    lemma_distinct(hashes);
    assert(distinct(hashes).to_set().contains(h) == hashes.to_set().contains(h));
}

proof fn lemma_countable_append(a: Seq<u64>, b: Seq<u64>)
    ensures
        countable(a + b) == countable(a) + countable(b),
    decreases b.len(),
{
    if b.len() == 0 {
        assert(a + b =~= a);
        assert(countable(a) + countable(b) =~= countable(a));
    } else {
        lemma_countable_append(a, b.drop_last());
        assert((a + b).drop_last() =~= a + b.drop_last());
        assert((a + b).last() == b.last());
        assert(countable(a + b) =~= countable(a) + countable(b));
    }
}

proof fn lemma_contains_append(a: Seq<u64>, b: Seq<u64>, h: u64)
    ensures
        (a + b).contains(h) <==> a.contains(h) || b.contains(h),
{
    let c = a + b;
    if c.contains(h) {
        let i = c.index_of(h);
        if i < a.len() {
            assert(a[i] == h);
        } else {
            assert(b[i - a.len()] == h);
        }
    }
    if a.contains(h) {
        assert(c[a.index_of(h)] == h);
    }
    if b.contains(h) {
        assert(c[a.len() + b.index_of(h)] == h);
    }
}

/// The hashes of what a sketch keeps lie in the part up to theta, and of all hashes up to theta none
/// is missing.
proof fn lemma_kept_up_to_theta(b: Seq<u64>)
    ensures
        ({
            let kept = smallest_of(b);
            &&& ascending(kept.hashes)
            &&& kept.hashes.len() <= THETA_K
            &&& forall|h: u64| #[trigger]
                kept.hashes.contains(h) <==> countable(b).contains(h) && h <= kept.theta
            &&& kept.hashes.len() < THETA_K ==> kept.theta == u64::MAX
            &&& kept.theta < u64::MAX ==> {
                &&& kept.hashes.len() == THETA_K
                &&& kept.hashes.last() == kept.theta
                &&& distinct(countable(b)).len() > THETA_K
            }
        }),
{
    let all = distinct(countable(b));
    let kept = smallest_of(b);
    lemma_distinct(countable(b));
    lemma_up_to(b, 0xffff_ffff_ffff_fffe);
    assert forall|h: u64| #[trigger]
        kept.hashes.contains(h) <==> countable(b).contains(h) && h <= kept.theta by {
        lemma_set_of_distinct(countable(b), h);
        if all.len() > THETA_K {
            if kept.hashes.contains(h) {
                let i = kept.hashes.index_of(h);
                assert(all[i] == h);
                assert(all.contains(h));
                assert(all[i] <= all[THETA_K - 1]);
            }
            if all.contains(h) && h <= kept.theta {
                let i = all.index_of(h);
                if i >= THETA_K {
                    assert(all[THETA_K - 1] < all[i]);
                }
                assert(kept.hashes[i] == h);
            }
        }
    }
    if all.len() > THETA_K {
        assert(all.contains(all[THETA_K - 1]));
        lemma_set_of_distinct(countable(b), all[THETA_K - 1]);
    }
}

/// The smallest hashes of two inputs are found among those of the first and the smallest of the
/// second, and none of them lies above the second's theta.
proof fn lemma_smallest_of_both(a: Seq<u64>, b: Seq<u64>)
    ensures
        ({
            let kept = smallest_of(b);
            let both = smallest_of(a + b);
            let found = smallest_of(a + kept.hashes);
            &&& found.hashes == both.hashes
            &&& both.theta == smaller(found.theta, kept.theta)
            &&& both.hashes.len() > 0 ==> both.hashes.last() <= both.theta
        }),
{
    let kept = smallest_of(b);
    let t = kept.theta;
    lemma_kept_up_to_theta(b);
    lemma_kept_up_to_theta(a + b);
    lemma_kept_up_to_theta(a + kept.hashes);
    lemma_up_to(b, 0xffff_ffff_ffff_fffe);
    assert(!kept.hashes.contains(u64::MAX));
    lemma_below_all(kept.hashes);
    lemma_countable_append(a, b);
    lemma_countable_append(a, kept.hashes);
    let c = distinct(countable(a + kept.hashes));
    let d = distinct(countable(a + b));
    lemma_distinct(countable(a + kept.hashes));
    lemma_distinct(countable(a + b));
    lemma_up_to(c, t);
    lemma_up_to(d, t);
    let f = up_to(c, t);
    let g = up_to(d, t);
    assert forall|h: u64| f.contains(h) <==> g.contains(h) by {
        lemma_set_of_distinct(countable(a + kept.hashes), h);
        lemma_set_of_distinct(countable(a + b), h);
        lemma_contains_append(countable(a), kept.hashes, h);
        lemma_contains_append(countable(a), countable(b), h);
    }
    assert(f.to_set() =~= g.to_set());
    lemma_ascending_unique(f, g);
    lemma_up_to_is_prefix(c, t);
    lemma_up_to_is_prefix(d, t);
    let k = THETA_K as int;
    if t == u64::MAX {
        assert(f =~= c) by {
            if c.len() > 0 {
                assert(c.last() <= t);
            }
        }
        assert(g =~= d) by {
            if d.len() > 0 {
                assert(d.last() <= t);
            }
        }
    } else {
        // The second's hashes are all among those up to its theta.
        assert forall|i: int| 0 <= i < kept.hashes.len() implies f.contains(
            #[trigger] kept.hashes[i],
        ) by {
            let h = kept.hashes[i];
            assert(kept.hashes.contains(h));
            lemma_set_of_distinct(countable(a + kept.hashes), h);
            lemma_contains_append(countable(a), kept.hashes, h);
        }
        lemma_no_longer(kept.hashes, f);
        assert(f.contains(kept.hashes[k - 1]));
        let at = f.index_of(t);
        assert(f[at] == t);
        assert(f.last() == t) by {
            assert(f.contains(f[f.len() - 1]));
            if at < f.len() - 1 {
                assert(f[at] < f[f.len() - 1]);
            }
        }
        assert(c.take(k) =~= f.take(k));
        assert(d.take(k) =~= f.take(k));
        assert(distinct(countable(b)).len() > THETA_K);
        let e = distinct(countable(b));
        lemma_distinct(countable(b));
        assert forall|i: int| 0 <= i < e.len() implies d.contains(#[trigger] e[i]) by {
            assert(e.contains(e[i]));
            lemma_set_of_distinct(countable(b), e[i]);
            lemma_set_of_distinct(countable(a + b), e[i]);
            lemma_contains_append(countable(a), countable(b), e[i]);
        }
        lemma_no_longer(e, d);
        assert(d[k - 1] == f[k - 1]);
        if c.len() > k {
            assert(c[k - 1] == f[k - 1]);
            assert(f[k - 1] <= f.last());
        } else {
            assert(c =~= f);
            assert(f.take(k) =~= f);
        }
    }
    let both = smallest_of(a + b);
    if both.hashes.len() > 0 {
        assert(both.hashes.contains(both.hashes[both.hashes.len() - 1]));
    }
}

proof fn lemma_no_longer(s: Seq<u64>, t: Seq<u64>)
    requires
        ascending(s),
        ascending(t),
        forall|i: int| 0 <= i < s.len() ==> t.contains(#[trigger] s[i]),
    ensures
        s.len() <= t.len(),
    decreases s.len(),
{
    if s.len() > 0 {
        let x = s.last();
        assert(t.contains(s[s.len() - 1]));
        let j = t.index_of(x);
        let r = t.take(j);
        let q = s.drop_last();
        assert forall|i: int| 0 <= i < q.len() implies r.contains(#[trigger] q[i]) by {
            assert(t.contains(s[i]));
            let n = t.index_of(s[i]);
            assert(s[i] < s[s.len() - 1]);
            if n >= j {
                assert(t[j] <= t[n]);
            }
            assert(r[n] == q[i]);
        }
        lemma_no_longer(q, r);
    }
}

/// Merging the sketches of two inputs gives the sketch of both: it keeps the smallest hashes of all
/// that either took.
pub proof fn law_merge_keeps_the_smallest_of_both(a: Seq<u64>, b: Seq<u64>)
    ensures
        merged(with_values(empty_sketch(), a), with_values(empty_sketch(), b)) == with_values(
            empty_sketch(),
            a + b,
        ),
{
    let kept = smallest_of(b);
    lemma_keeps_smallest(a);
    lemma_keeps_smallest(b);
    lemma_keeps_smallest(a + b);
    lemma_keeps_smallest(a + kept.hashes);
    lemma_with_values_append(empty_sketch(), a, kept.hashes);
    lemma_smallest_of_both(a, b);
    let both = smallest_of(a + b);
    lemma_kept_up_to_theta(a + b);
    lemma_up_to_is_prefix(both.hashes, both.theta);
    if both.hashes.len() == 0 {
        assert(up_to(both.hashes, both.theta) =~= both.hashes);
    }
}

/// The hashes of a union, in order and each once, and its theta: the smallest of those up to both
/// thetas.
pub open spec fn union_of(a: (Seq<u64>, u64), b: (Seq<u64>, u64)) -> (Seq<u64>, u64) {
    let theta = smaller(a.1, b.1);
    let all = distinct(up_to(a.0 + b.0, theta));
    if all.len() > THETA_K {
        (all.take(THETA_K as int), all[THETA_K - 1])
    } else {
        (all, theta)
    }
}

/// The union of the sketches of two inputs is the sketch of both.
pub proof fn law_union_keeps_the_smallest_of_both(a: Seq<u64>, b: Seq<u64>)
    ensures
        ({
            let x = with_values(empty_sketch(), a);
            let y = with_values(empty_sketch(), b);
            let both = with_values(empty_sketch(), a + b);
            union_of((x.hashes, x.theta), (y.hashes, y.theta)) == (both.hashes, both.theta)
        }),
{
    lemma_keeps_smallest(a);
    lemma_keeps_smallest(b);
    lemma_keeps_smallest(a + b);
    let x = smallest_of(a);
    let y = smallest_of(b);
    let both = smallest_of(a + b);
    lemma_kept_up_to_theta(a);
    lemma_kept_up_to_theta(b);
    lemma_kept_up_to_theta(a + b);
    lemma_countable_append(a, b);
    let theta = smaller(x.theta, y.theta);
    let joined = x.hashes + y.hashes;
    lemma_up_to(joined, theta);
    let all = distinct(up_to(joined, theta));
    lemma_distinct(up_to(joined, theta));
    let d = distinct(countable(a + b));
    lemma_distinct(countable(a + b));
    lemma_up_to(d, theta);
    let g = up_to(d, theta);
    assert forall|h: u64| all.contains(h) <==> g.contains(h) by {
        lemma_set_of_distinct(up_to(joined, theta), h);
        lemma_set_of_distinct(countable(a + b), h);
        lemma_contains_append(x.hashes, y.hashes, h);
        lemma_contains_append(countable(a), countable(b), h);
    }
    assert(all.to_set() =~= g.to_set());
    lemma_ascending_unique(all, g);
    lemma_up_to_is_prefix(d, theta);
    let k = THETA_K as int;
    if theta == u64::MAX {
        if d.len() > 0 {
            assert(d.last() <= theta);
        }
        assert(g =~= d);
    } else {
        let full = if x.theta == theta {
            x.hashes
        } else {
            y.hashes
        };
        assert(ascending(full) && full.len() == k && full.last() == theta);
        assert forall|i: int| 0 <= i < full.len() implies g.contains(#[trigger] full[i]) by {
            assert(full.contains(full[i]));
            if i < k - 1 {
                assert(full[i] < full[k - 1]);
            }
            lemma_set_of_distinct(countable(a + b), full[i]);
            lemma_contains_append(countable(a), countable(b), full[i]);
        }
        lemma_no_longer(full, g);
        assert(g.contains(full[k - 1]));
        let at = g.index_of(theta);
        assert(g.last() == theta) by {
            assert(g.contains(g[g.len() - 1]));
            if at < g.len() - 1 {
                assert(g[at] < g[g.len() - 1]);
            }
        }
        let e = if x.theta == theta {
            distinct(countable(a))
        } else {
            distinct(countable(b))
        };
        lemma_distinct(countable(a));
        lemma_distinct(countable(b));
        assert forall|i: int| 0 <= i < e.len() implies d.contains(#[trigger] e[i]) by {
            assert(e.contains(e[i]));
            lemma_set_of_distinct(countable(a), e[i]);
            lemma_set_of_distinct(countable(b), e[i]);
            lemma_set_of_distinct(countable(a + b), e[i]);
            lemma_contains_append(countable(a), countable(b), e[i]);
        }
        lemma_no_longer(e, d);
        assert(d.take(k) =~= g.take(k));
        assert(d[k - 1] == g[k - 1]);
        if g.len() == k {
            assert(g.take(k) =~= g);
        }
    }
}

/// States are merged one after the other; those that are missing add nothing, and the first that
/// cannot be read ends the merge with what was merged before it.
pub proof fn law_states_are_merged_in_order(
    m: ThetaModel,
    states: Seq<Option<Seq<u8>>>,
    state: Option<Seq<u8>>,
)
    ensures
        states_merged(m, Seq::empty()) == (m, None::<ThetaError>),
        ({
            let before = states_merged(m, states);
            let after = states_merged(m, states.push(state));
            &&& before.1 is Some || state is None ==> after == before
            &&& before.1 is None && state is Some ==> match parsed(state->0) {
                Ok(other) => after == (merged(before.0, other), None::<ThetaError>),
                Err(e) => after == (before.0, Some(e)),
            }
        }),
{
    assert(states.push(state).drop_last() =~= states);
}

/// A set of hashes in order: each hash once, the smaller ones first; and of hashes up to a limit
/// exactly those that do not exceed it, in their order.
pub proof fn law_hashes_are_kept_once_and_in_order(hashes: Seq<u64>, theta: u64, h: u64)
    ensures
        distinct(hashes).contains(h) <==> hashes.contains(h),
        forall|i: int, j: int|
            0 <= i < j < distinct(hashes).len() ==> #[trigger] distinct(hashes)[i]
                < #[trigger] distinct(hashes)[j],
        up_to(hashes, theta) == hashes.filter(|x: u64| x <= theta),
{
    lemma_distinct(hashes);
    lemma_up_to_filter(hashes, theta);
    lemma_set_of_distinct(hashes, h);
}

proof fn lemma_up_to_filter(hashes: Seq<u64>, theta: u64)
    ensures
        up_to(hashes, theta) == hashes.filter(|x: u64| x <= theta),
    decreases hashes.len(),
{
    reveal(Seq::filter);
    if hashes.len() > 0 {
        lemma_up_to_filter(hashes.drop_last(), theta);
    }
}

/// What cannot be read as a sketch: too short for a head, without the mark at its start, or shorter
/// than its head says.
pub proof fn law_damaged_sketches_are_refused(b: Seq<u8>)
    ensures
        parsed(b) == Err::<ThetaModel, ThetaError>(ThetaError::TooShort) <==> b.len() < 16,
        parsed(b) is Ok ==> b.len() >= 16 + 8 * le_value(b.subrange(4, 8)) && parsed(b)->Ok_0.theta
            == le_value(b.subrange(8, 16)),
        b.len() >= 16 && le_value(b.subrange(0, 4)) == THETA_MAGIC ==> (parsed(b) == Err::<
            ThetaModel,
            ThetaError,
        >(ThetaError::Truncated) <==> b.len() < 16 + 8 * le_value(b.subrange(4, 8))),
{
    if b.len() >= 16 {
        lemma_le_value_bound(b.subrange(8, 16));
        reveal_with_fuel(le_bound, 9);
    }
}

} // verus!
