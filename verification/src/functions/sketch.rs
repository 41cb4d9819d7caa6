//! Functions on the binary forms of theta sketches.

use vstd::prelude::*;

use crate::bytes;
use crate::bytes::{
    law_u32_bytes_round_trip, law_u64_bytes_round_trip, le_bytes, le_value, lemma_words_round_trip,
    word_bytes, words_at,
};
use crate::functions::theta::{
    collect_distinct, distinct, header_count, header_theta, keep_up_to, sketch_bytes, smaller,
    union_of, up_to, ThetaEstimate, ThetaModel, THETA_K, THETA_MAGIC,
};

verus! {

/// The collation of every text.
pub const COLLATION: &'static str = "SYSTEM.BUILTIN.UTF8_BINARY";

/// The type of what a sketch function returns.
#[derive(Debug, Clone, Copy, PartialEq, Eq, Hash, Structural)]
pub enum SketchReturnType {
    Binary,
    Utf8,
    Int64,
    Float64,
}

/// A value that stands in for the result of a sketch function.
#[derive(Debug)]
pub enum StubValue {
    Binary(Vec<u8>),
    Utf8(String),
    Int64(i64),
    /// Zero.
    Float64Zero,
}

/// A sketch function that gives a fixed value of its type.
#[derive(Debug)]
pub struct SketchScalarStub {
    name: String,
    ret: SketchReturnType,
}

impl SketchScalarStub {
    /// The name.
    pub closed spec fn text(&self) -> Seq<char> {
        self.name@
    }

    /// The type of the result.
    pub closed spec fn kind(&self) -> SketchReturnType {
        self.ret
    }

    /// A function that returns bytes.
    pub fn binary(name: &str) -> (stub: Self)
        ensures
            stub.text() == name@,
            stub.kind() == SketchReturnType::Binary,
    {
        SketchScalarStub { name: name.to_owned(), ret: SketchReturnType::Binary }
    }

    /// A function that returns text.
    pub fn string(name: &str) -> (stub: Self)
        ensures
            stub.text() == name@,
            stub.kind() == SketchReturnType::Utf8,
    {
        SketchScalarStub { name: name.to_owned(), ret: SketchReturnType::Utf8 }
    }

    /// A function that returns an integer.
    pub fn int64(name: &str) -> (stub: Self)
        ensures
            stub.text() == name@,
            stub.kind() == SketchReturnType::Int64,
    {
        SketchScalarStub { name: name.to_owned(), ret: SketchReturnType::Int64 }
    }

    /// A function that returns a double.
    pub fn float64(name: &str) -> (stub: Self)
        ensures
            stub.text() == name@,
            stub.kind() == SketchReturnType::Float64,
    {
        SketchScalarStub { name: name.to_owned(), ret: SketchReturnType::Float64 }
    }

    /// The name.
    pub fn name(&self) -> (name: &str)
        ensures
            name@ == self.text(),
    {
        self.name.as_str()
    }

    /// The type of the result.
    pub fn return_type(&self) -> (kind: SketchReturnType)
        ensures
            kind == self.kind(),
    {
        self.ret
    }

    /// The result.
    pub fn value(&self) -> (value: StubValue)
        ensures
            match self.kind() {
                SketchReturnType::Binary => value matches StubValue::Binary(b) && b@.len() == 0,
                SketchReturnType::Utf8 => value matches StubValue::Utf8(s) && s@ == "sketch"@,
                SketchReturnType::Int64 => value == StubValue::Int64(0),
                SketchReturnType::Float64 => value == StubValue::Float64Zero,
            },
    {
        match self.ret {
            SketchReturnType::Binary => StubValue::Binary(Vec::new()),
            SketchReturnType::Utf8 => StubValue::Utf8("sketch".to_owned()),
            SketchReturnType::Int64 => StubValue::Int64(0),
            SketchReturnType::Float64 => StubValue::Float64Zero,
        }
    }
}

/// Whether bytes begin as a sketch does.
pub open spec fn has_header(b: Seq<u8>) -> bool {
    b.len() >= 16 && le_value(b.subrange(0, 4)) == THETA_MAGIC
}

fn check_header(b: &[u8]) -> (found: bool)
    ensures
        found == has_header(b@),
{
    b.len() >= 16 && bytes::read_u32_le(b, 0) == THETA_MAGIC
}

/// How the number of values is estimated from the binary form of a sketch: bytes that do not begin
/// as one stand for none.
pub fn estimate_from_bytes(b: &[u8]) -> (estimate: ThetaEstimate)
    ensures
        estimate == if !has_header(b@) {
            ThetaEstimate::Exact { count: 0 }
        } else if header_count(b@) < THETA_K || header_theta(b@) == 0 {
            ThetaEstimate::Exact { count: header_count(b@) as u64 }
        } else {
            ThetaEstimate::Scaled {
                count: header_count(b@) as u64,
                theta: header_theta(b@),
            }
        },
{
    if !check_header(b) {
        return ThetaEstimate::Exact { count: 0 };
    }
    let count: u64 = bytes::read_u32_le(b, 4) as u64;
    let theta: u64 = bytes::read_u64_le(b, 8);
    if count < THETA_K as u64 || theta == 0 {
        ThetaEstimate::Exact { count }
    } else {
        ThetaEstimate::Scaled { count, theta }
    }
}

/// The number of hashes that a binary form holds: those that its header names and that are there.
pub open spec fn held_count(b: Seq<u8>) -> nat {
    let whole = ((b.len() - 16) / 8) as nat;
    if header_count(b) <= whole {
        header_count(b)
    } else {
        whole
    }
}

/// The hashes and theta of a binary form: bytes that do not begin as one hold none.
pub open spec fn decoded(b: Seq<u8>) -> (Seq<u64>, u64) {
    if has_header(b) {
        (words_at(b, 16, held_count(b)), header_theta(b))
    } else {
        (Seq::empty(), u64::MAX)
    }
}

/// The hashes and theta of a binary form; the hashes that are cut off are left out.
pub fn decode_sketch(b: &[u8]) -> (sketch: (Vec<u64>, u64))
    ensures
        (sketch.0@, sketch.1) == decoded(b@),
{
    if !check_header(b) {
        let none: Vec<u64> = Vec::new();
        assert(none@ =~= Seq::<u64>::empty());
        return (none, u64::MAX);
    }
    let count: u64 = bytes::read_u32_le(b, 4) as u64;
    let theta: u64 = bytes::read_u64_le(b, 8);
    let whole: usize = (b.len() - 16) / 8;
    let held: usize = if count <= whole as u64 {
        count as usize
    } else {
        whole
    };
    (bytes::read_words(b, 16, held), theta)
}

/// The binary form of hashes, in order and each once, and theta.
pub open spec fn encoded(hashes: Seq<u64>, theta: u64) -> Seq<u8> {
    sketch_bytes(ThetaModel { hashes: distinct(hashes), theta })
}

/// The binary form of hashes, in order and each once, and theta.
pub fn encode_sketch(hashes: Vec<u64>, theta: u64) -> (out: Vec<u8>)
    ensures
        out@ == encoded(hashes@, theta),
{
    let sorted = collect_distinct(hashes.as_slice());
    let mut out: Vec<u8> = Vec::new();
    bytes::push_u32_le(&mut out, THETA_MAGIC);
    bytes::push_u32_le(&mut out, sorted.len() as u32);
    bytes::push_u64_le(&mut out, theta);
    bytes::push_words(&mut out, sorted.as_slice());
    assert(out@ =~= encoded(hashes@, theta));
    out
}

/// The union of two sketches.
pub fn theta_union(a: &[u8], b: &[u8]) -> (out: Vec<u8>)
    ensures
        ({
            let u = union_of(decoded(a@), decoded(b@));
            out@ == encoded(u.0, u.1)
        }),
{
    let (left, ta) = decode_sketch(a);
    let (right, tb) = decode_sketch(b);
    let theta: u64 = if ta <= tb {
        ta
    } else {
        tb
    };
    let mut joined = left;
    let mut more = right;
    let ghost both = left@ + right@;
    joined.append(&mut more);
    assert(joined@ =~= both);
    let kept = keep_up_to(joined.as_slice(), theta);
    let mut all = collect_distinct(kept.as_slice());
    let ghost whole = all@;
    if all.len() > THETA_K {
        all.truncate(THETA_K);
        assert(all@ =~= whole.take(THETA_K as int));
        let last: u64 = all[THETA_K - 1];
        return encode_sketch(all, last);
    }
    encode_sketch(all, theta)
}

fn contains(hashes: &[u64], h: u64) -> (found: bool)
    ensures
        found == hashes@.contains(h),
{
    let mut i: usize = 0;
    while i < hashes.len()
        invariant
            i <= hashes@.len(),
            forall|k: int| 0 <= k < i ==> hashes@[k] != h,
        decreases hashes@.len() - i,
    {
        if hashes[i] == h {
            return true;
        }
        i = i + 1;
    }
    false
}

/// The hashes that are, or are not, among others.
pub open spec fn chosen(hashes: Seq<u64>, others: Seq<u64>, among: bool) -> Seq<u64>
    decreases hashes.len(),
{
    if hashes.len() == 0 {
        Seq::empty()
    } else {
        let before = chosen(hashes.drop_last(), others, among);
        if others.contains(hashes.last()) == among {
            before.push(hashes.last())
        } else {
            before
        }
    }
}

fn choose_hashes(hashes: &[u64], others: &[u64], among: bool) -> (out: Vec<u64>)
    ensures
        out@ == chosen(hashes@, others@, among),
{
    let mut out: Vec<u64> = Vec::new();
    let mut i: usize = 0;
    assert(hashes@.take(0) =~= Seq::<u64>::empty());
    while i < hashes.len()
        invariant
            i <= hashes@.len(),
            out@ == chosen(hashes@.take(i as int), others@, among),
        decreases hashes@.len() - i,
    {
        assert(hashes@.take(i + 1).drop_last() =~= hashes@.take(i as int));
        assert(hashes@.take(i + 1).last() == hashes@[i as int]);
        if contains(others, hashes[i]) == among {
            out.push(hashes[i]);
        }
        i = i + 1;
    }
    assert(hashes@.take(i as int) =~= hashes@);
    out
}

/// The hashes of the first sketch that are, or are not, in the second, and that lie above neither
/// theta.
pub open spec fn selection(a: (Seq<u64>, u64), b: (Seq<u64>, u64), among: bool) -> (Seq<u64>, u64) {
    let theta = smaller(a.1, b.1);
    (up_to(chosen(a.0, b.0, among), theta), theta)
}

fn select(a: &[u8], b: &[u8], among: bool) -> (out: Vec<u8>)
    ensures
        ({
            let s = selection(decoded(a@), decoded(b@), among);
            out@ == encoded(s.0, s.1)
        }),
{
    let (left, ta) = decode_sketch(a);
    let (right, tb) = decode_sketch(b);
    let theta: u64 = if ta <= tb {
        ta
    } else {
        tb
    };
    let picked = choose_hashes(left.as_slice(), right.as_slice(), among);
    let kept = keep_up_to(picked.as_slice(), theta);
    encode_sketch(kept, theta)
}

/// The intersection of two sketches.
pub fn theta_intersection(a: &[u8], b: &[u8]) -> (out: Vec<u8>)
    ensures
        ({
            let s = selection(decoded(a@), decoded(b@), true);
            out@ == encoded(s.0, s.1)
        }),
{
    select(a, b, true)
}

/// The difference of two sketches: the values of the first that are not in the second.
pub fn theta_difference(a: &[u8], b: &[u8]) -> (out: Vec<u8>)
    ensures
        ({
            let s = selection(decoded(a@), decoded(b@), false);
            out@ == encoded(s.0, s.1)
        }),
{
    select(a, b, false)
}

/// Decoding what was encoded gives the hashes, in order and each once, and theta.
pub proof fn law_decode_gives_back_what_was_encoded(hashes: Seq<u64>, theta: u64)
    requires
        distinct(hashes).len() <= u32::MAX,
    ensures
        decoded(encoded(hashes, theta)) == (distinct(hashes), theta),
{
    let sorted = distinct(hashes);
    let count = sorted.len() as u32;
    let b = encoded(hashes, theta);
    let magic = le_bytes(THETA_MAGIC as nat, 4);
    let number = le_bytes(count as nat, 4);
    let limit = le_bytes(theta as nat, 8);
    law_u32_bytes_round_trip(THETA_MAGIC);
    law_u32_bytes_round_trip(count);
    law_u64_bytes_round_trip(theta);
    let head = magic + number + limit;
    lemma_words_round_trip(head, sorted);
    assert(b.subrange(0, 4) =~= magic);
    assert(b.subrange(4, 8) =~= number);
    assert(b.subrange(8, 16) =~= limit);
    assert(b =~= head + word_bytes(sorted));
}

proof fn lemma_chosen(hashes: Seq<u64>, others: Seq<u64>, among: bool)
    ensures
        forall|h: u64|
            #![trigger chosen(hashes, others, among).contains(h)]
            chosen(hashes, others, among).contains(h) <==> hashes.contains(h) && others.contains(h)
                == among,
    decreases hashes.len(),
{
    if hashes.len() > 0 {
        let t = hashes.drop_last();
        lemma_chosen(t, others, among);
        let v = chosen(t, others, among);
        let w = chosen(hashes, others, among);
        assert forall|h: u64| #![trigger w.contains(h)] w.contains(h) <==> hashes.contains(h)
            && others.contains(h) == among by {
            if w.contains(h) {
                let i = w.index_of(h);
                if i < v.len() {
                    assert(v[i] == h);
                    assert(v.contains(h));
                    let j = t.index_of(h);
                    assert(hashes[j] == h);
                } else {
                    assert(hashes[hashes.len() - 1] == h);
                }
            }
            if hashes.contains(h) && others.contains(h) == among {
                let i = hashes.index_of(h);
                if i < t.len() {
                    assert(t[i] == h);
                    assert(v.contains(h));
                    let j = v.index_of(h);
                    assert(w[j] == h);
                } else {
                    assert(w[v.len() as int] == h);
                }
            }
        }
    }
}

/// A value is in the intersection of two sketches where it is in both and above neither theta,
/// and in their difference where it is in the first only and above neither theta.
pub proof fn law_selections_are_set_operations(a: (Seq<u64>, u64), b: (Seq<u64>, u64), h: u64)
    ensures
        selection(a, b, true).0.contains(h) <==> a.0.contains(h) && b.0.contains(h) && h <= smaller(
            a.1,
            b.1,
        ),
        selection(a, b, false).0.contains(h) <==> a.0.contains(h) && !b.0.contains(h) && h
            <= smaller(a.1, b.1),
{
    let theta = smaller(a.1, b.1);
    lemma_chosen(a.0, b.0, true);
    lemma_chosen(a.0, b.0, false);
    crate::functions::theta::lemma_up_to(chosen(a.0, b.0, true), theta);
    crate::functions::theta::lemma_up_to(chosen(a.0, b.0, false), theta);
}

/// Decoding never reads beyond the bytes there are, and gives as many hashes as the head says where
/// they are there.
pub proof fn law_decoding_reads_what_is_there(b: Seq<u8>)
    ensures
        has_header(b) ==> {
            &&& 16 + 8 * decoded(b).0.len() <= b.len()
            &&& decoded(b).0.len() <= header_count(b)
            &&& 16 + 8 * header_count(b) <= b.len() ==> decoded(b).0.len() == header_count(b)
            &&& decoded(b).1 == header_theta(b)
        },
        !has_header(b) ==> decoded(b).0.len() == 0 && decoded(b).1 == u64::MAX,
        b.len() < 16 ==> !has_header(b),
{
}

/// Selections keep the order and what they repeat.
pub proof fn law_selections_keep_the_order(hashes: Seq<u64>, others: Seq<u64>)
    ensures
        chosen(hashes, others, true) == hashes.filter(|h: u64| others.contains(h)),
        chosen(hashes, others, false) == hashes.filter(|h: u64| !others.contains(h)),
    decreases hashes.len(),
{
    reveal(Seq::filter);
    if hashes.len() > 0 {
        law_selections_keep_the_order(hashes.drop_last(), others);
    }
}

} // verus!
