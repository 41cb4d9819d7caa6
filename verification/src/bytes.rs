//! Byte strings: copies and little-endian integers.

use vstd::arithmetic::power::{lemma_pow_positive, pow};
use vstd::prelude::*;

verus! {

/// A copy of a byte string.
pub fn copy(bytes: &[u8]) -> (out: Vec<u8>)
    ensures
        out@ == bytes@,
{
    let mut out: Vec<u8> = Vec::new();
    append(&mut out, bytes);
    assert(out@ =~= bytes@);
    out
}

/// Appends a byte string.
pub fn append(out: &mut Vec<u8>, bytes: &[u8])
    ensures
        final(out)@ == old(out)@ + bytes@,
{
    let mut i: usize = 0;
    assert(out@ =~= old(out)@ + bytes@.take(0));
    while i < bytes.len()
        invariant
            i <= bytes@.len(),
            out@ == old(out)@ + bytes@.take(i as int),
        decreases bytes@.len() - i,
    {
        out.push(bytes[i]);
        i = i + 1;
        assert(out@ =~= old(out)@ + bytes@.take(i as int));
    }
    assert(bytes@.take(i as int) =~= bytes@);
}

/// A copy of `bytes[from..to]`.
pub fn copy_range(bytes: &[u8], from: usize, to: usize) -> (out: Vec<u8>)
    requires
        from <= to <= bytes@.len(),
    ensures
        out@ == bytes@.subrange(from as int, to as int),
{
    let mut out: Vec<u8> = Vec::new();
    let mut i = from;
    while i < to
        invariant
            from <= i <= to <= bytes@.len(),
            out@ == bytes@.subrange(from as int, i as int),
        decreases to - i,
    {
        out.push(bytes[i]);
        i = i + 1;
        assert(out@ =~= bytes@.subrange(from as int, i as int));
    }
    out
}

/// The value of bytes in little-endian order.
pub open spec fn le_value(bytes: Seq<u8>) -> nat
    decreases bytes.len(),
{
    if bytes.len() == 0 {
        0
    } else {
        bytes[0] as nat + 256 * le_value(bytes.skip(1))
    }
}

/// The `len` bytes of a number in little-endian order.
pub open spec fn le_bytes(n: nat, len: nat) -> Seq<u8>
    decreases len,
{
    if len == 0 {
        Seq::empty()
    } else {
        seq![(n % 256) as u8] + le_bytes(n / 256, (len - 1) as nat)
    }
}

/// The largest number of `len` bytes, plus one.
pub open spec fn le_bound(len: nat) -> nat
    decreases len,
{
    if len == 0 {
        1
    } else {
        256 * le_bound((len - 1) as nat)
    }
}

/// The bytes of a number that fits have its value.
pub proof fn lemma_le_value_of_bytes(n: nat, len: nat)
    requires
        n < le_bound(len),
    ensures
        le_bytes(n, len).len() == len,
        le_value(le_bytes(n, len)) == n,
    decreases len,
{
    if len > 0 {
        lemma_le_value_of_bytes(n / 256, (len - 1) as nat);
        assert(le_bytes(n, len).skip(1) =~= le_bytes(n / 256, (len - 1) as nat));
    }
}

/// The value of bytes is below the bound for their number.
pub proof fn lemma_le_value_bound(bytes: Seq<u8>)
    ensures
        le_value(bytes) < le_bound(bytes.len()),
    decreases bytes.len(),
{
    if bytes.len() > 0 {
        lemma_le_value_bound(bytes.skip(1));
    }
}

/// The bytes of the value of bytes are these bytes.
pub proof fn lemma_le_bytes_of_value(bytes: Seq<u8>)
    ensures
        le_bytes(le_value(bytes), bytes.len()) == bytes,
    decreases bytes.len(),
{
    if bytes.len() > 0 {
        lemma_le_bytes_of_value(bytes.skip(1));
        assert(bytes =~= seq![bytes[0]] + bytes.skip(1));
    } else {
        assert(bytes =~= Seq::<u8>::empty());
    }
}

proof fn lemma_bounds()
    ensures
        le_bound(4) == 0x1_0000_0000,
        le_bound(8) == 0x1_0000_0000_0000_0000,
{
    reveal_with_fuel(le_bound, 9);
}

/// Appends the low `len` bytes of a number in little-endian order.
fn push_le(out: &mut Vec<u8>, n: u64, len: usize)
    ensures
        final(out)@ == old(out)@ + le_bytes(n as nat, len as nat),
    decreases len,
{
    if len > 0 {
        let low: u8 = (n % 256) as u8;
        out.push(low);
        push_le(out, n / 256, len - 1);
        assert(out@ =~= old(out)@ + le_bytes(n as nat, len as nat));
    } else {
        assert(out@ =~= old(out)@ + le_bytes(n as nat, len as nat));
    }
}

/// Appends a `u32` in little-endian order.
pub fn push_u32_le(out: &mut Vec<u8>, n: u32)
    ensures
        final(out)@ == old(out)@ + le_bytes(n as nat, 4),
{
    push_le(out, n as u64, 4);
}

/// Appends a `u64` in little-endian order.
pub fn push_u64_le(out: &mut Vec<u8>, n: u64)
    ensures
        final(out)@ == old(out)@ + le_bytes(n as nat, 8),
{
    push_le(out, n, 8);
}

/// The two's complement of a signed number in 64 bits.
pub open spec fn twos_complement(n: i64) -> nat {
    if n >= 0 {
        n as nat
    } else {
        (n + 0x1_0000_0000_0000_0000) as nat
    }
}

/// Appends an `i64` in little-endian order.
pub fn push_i64_le(out: &mut Vec<u8>, n: i64)
    ensures
        final(out)@ == old(out)@ + le_bytes(twos_complement(n), 8),
{
    let bits: u64 = #[verifier::truncate] (n as u64);
    assert(bits as int == if n >= 0 {
        n as int
    } else {
        n + 0x1_0000_0000_0000_0000
    }) by (bit_vector)
        requires
            bits == n as u64,
    ;
    push_le(out, bits, 8);
}

/// The value of `len` bytes from `off` on, in little-endian order.
fn read_le(b: &[u8], off: usize, len: usize) -> (n: u64)
    requires
        len <= 8,
        off + len <= b@.len(),
    ensures
        n == le_value(b@.subrange(off as int, off + len)),
        n < le_bound(len as nat),
    decreases len,
{
    let ghost bytes = b@.subrange(off as int, off + len);
    proof {
        lemma_le_value_bound(bytes);
    }
    if len == 0 {
        0
    } else {
        assert(off < b.len());
        let rest: u64 = read_le(b, off + 1, len - 1);
        proof {
            assert(bytes.skip(1) =~= b@.subrange(off + 1, off + len));
            lemma_le_bound_monotone((len - 1) as nat, 7);
            lemma_bounds();
            assert(le_bound(8) == 256 * le_bound(7));
        }
        b[off] as u64 + 256 * rest
    }
}

proof fn lemma_le_bound_monotone(a: nat, b: nat)
    requires
        a <= b,
    ensures
        le_bound(a) <= le_bound(b),
        le_bound(a) >= 1,
    decreases b,
{
    if a < b {
        lemma_le_bound_monotone(a, (b - 1) as nat);
    } else if a > 0 {
        lemma_le_bound_monotone((a - 1) as nat, (a - 1) as nat);
    }
}

/// The `u32` in little-endian order at `off`.
pub fn read_u32_le(b: &[u8], off: usize) -> (n: u32)
    requires
        off + 4 <= b@.len(),
    ensures
        n == le_value(b@.subrange(off as int, off + 4)),
{
    proof {
        lemma_bounds();
    }
    read_le(b, off, 4) as u32
}

/// The `u64` in little-endian order at `off`.
pub fn read_u64_le(b: &[u8], off: usize) -> (n: u64)
    requires
        off + 8 <= b@.len(),
    ensures
        n == le_value(b@.subrange(off as int, off + 8)),
{
    read_le(b, off, 8)
}

/// The `i64` in little-endian order at `off`.
pub fn read_i64_le(b: &[u8], off: usize) -> (n: i64)
    requires
        off + 8 <= b@.len(),
    ensures
        twos_complement(n) == le_value(b@.subrange(off as int, off + 8)),
{
    let bits: u64 = read_le(b, off, 8);
    let n: i64 = #[verifier::truncate] (bits as i64);
    assert(bits as int == if n >= 0 {
        n as int
    } else {
        n + 0x1_0000_0000_0000_0000
    }) by (bit_vector)
        requires
            n == bits as i64,
    ;
    n
}

/// Reading the bytes of a `u64` gives it back.
pub proof fn law_u64_bytes_round_trip(n: u64)
    ensures
        le_bytes(n as nat, 8).len() == 8,
        le_value(le_bytes(n as nat, 8)) == n,
{
    lemma_bounds();
    lemma_le_value_of_bytes(n as nat, 8);
}

/// Reading the bytes of a `u32` gives it back.
pub proof fn law_u32_bytes_round_trip(n: u32)
    ensures
        le_bytes(n as nat, 4).len() == 4,
        le_value(le_bytes(n as nat, 4)) == n,
{
    lemma_bounds();
    lemma_le_value_of_bytes(n as nat, 4);
}

/// Reading the bytes of an `i64` gives it back.
pub proof fn law_i64_bytes_round_trip(n: i64)
    ensures
        le_bytes(twos_complement(n), 8).len() == 8,
        le_value(le_bytes(twos_complement(n), 8)) == twos_complement(n),
{
    lemma_bounds();
    lemma_le_value_of_bytes(twos_complement(n), 8);
}

/// The bytes of numbers, one after the other.
pub open spec fn word_bytes(words: Seq<u64>) -> Seq<u8>
    decreases words.len(),
{
    if words.len() == 0 {
        Seq::empty()
    } else {
        word_bytes(words.drop_last()) + le_bytes(words.last() as nat, 8)
    }
}

/// The number whose bytes are the `i`-th eight from `off` on.
pub open spec fn word_at(bytes: Seq<u8>, off: int, i: int) -> u64 {
    le_value(bytes.subrange(off + 8 * i, off + 8 * i + 8)) as u64
}

/// The `n` numbers whose bytes begin at `off`.
pub open spec fn words_at(bytes: Seq<u8>, off: int, n: nat) -> Seq<u64> {
    Seq::new(n, |i: int| word_at(bytes, off, i))
}

/// Appends numbers in little-endian order.
pub fn push_words(out: &mut Vec<u8>, words: &[u64])
    ensures
        final(out)@ == old(out)@ + word_bytes(words@),
{
    let mut i: usize = 0;
    assert(words@.take(0) =~= Seq::<u64>::empty());
    assert(out@ + word_bytes(words@.take(0)) =~= out@);
    while i < words.len()
        invariant
            i <= words@.len(),
            out@ == old(out)@ + word_bytes(words@.take(i as int)),
        decreases words@.len() - i,
    {
        proof {
            let next = words@.take(i + 1);
            assert(next.drop_last() =~= words@.take(i as int));
            assert(next.last() == words@[i as int]);
            assert(old(out)@ + word_bytes(next) =~= (old(out)@ + word_bytes(words@.take(i as int)))
                + le_bytes(words@[i as int] as nat, 8));
        }
        push_u64_le(out, words[i]);
        i = i + 1;
    }
    assert(words@.take(i as int) =~= words@);
}

/// The `n` numbers in little-endian order from `off` on.
pub fn read_words(b: &[u8], off: usize, n: usize) -> (words: Vec<u64>)
    requires
        off + 8 * n <= b@.len(),
    ensures
        words@ == words_at(b@, off as int, n as nat),
{
    let mut words: Vec<u64> = Vec::new();
    let mut at: usize = off;
    let mut i: usize = 0;
    while i < n
        invariant
            i <= n,
            at == off + 8 * i,
            off + 8 * n <= b@.len(),
            words@.len() == i,
            forall|k: int| 0 <= k < i ==> #[trigger] words@[k] == word_at(b@, off as int, k),
        decreases n - i,
    {
        let word: u64 = read_u64_le(b, at);
        words.push(word);
        i = i + 1;
        assert(off + 8 * i <= b.len());
        at = at + 8;
    }
    assert(words@ =~= words_at(b@, off as int, n as nat));
    words
}

/// Numbers take eight bytes each, and reading them gives them back.
pub proof fn lemma_words_round_trip(before: Seq<u8>, words: Seq<u64>)
    ensures
        word_bytes(words).len() == 8 * words.len(),
        words_at(before + word_bytes(words), before.len() as int, words.len()) == words,
    decreases words.len(),
{
    if words.len() > 0 {
        let rest = words.drop_last();
        let last = le_bytes(words.last() as nat, 8);
        lemma_words_round_trip(before, rest);
        law_u64_bytes_round_trip(words.last());
        let shorter = before + word_bytes(rest);
        let bytes = before + word_bytes(words);
        assert(bytes =~= shorter + last);
        let off = before.len() as int;
        let all = words_at(bytes, off, words.len());
        assert forall|i: int| 0 <= i < words.len() implies #[trigger] all[i] == words[i] by {
            if i < rest.len() {
                assert(words_at(shorter, off, rest.len())[i] == rest[i]);
                assert(bytes.subrange(off + 8 * i, off + 8 * i + 8) =~= shorter.subrange(
                    off + 8 * i,
                    off + 8 * i + 8,
                ));
            } else {
                assert(bytes.subrange(off + 8 * i, off + 8 * i + 8) =~= last);
            }
        }
        assert(all =~= words);
    } else {
        assert(words_at(before + word_bytes(words), before.len() as int, 0) =~= words);
    }
}

/// Whether byte strings are equal.
pub fn equal(a: &[u8], b: &[u8]) -> (same: bool)
    ensures
        same == (a@ == b@),
{
    if a.len() != b.len() {
        return false;
    }
    let mut i: usize = 0;
    while i < a.len()
        invariant
            i <= a@.len() == b@.len(),
            forall|k: int| 0 <= k < i ==> a@[k] == b@[k],
        decreases a@.len() - i,
    {
        if a[i] != b[i] {
            return false;
        }
        i = i + 1;
    }
    assert(a@ =~= b@);
    true
}

proof fn lemma_le_len(n: nat, len: nat)
    ensures
        le_bytes(n, len).len() == len,
    decreases len,
{
    if len > 0 {
        lemma_le_len(n / 256, (len - 1) as nat);
    }
}

/// The bytes of a number stand from the lowest to the highest.
pub proof fn law_low_bytes_come_first(n: nat, len: nat, i: nat)
    requires
        i < len,
    ensures
        le_bytes(n, len).len() == len,
        le_bytes(n, len)[i as int] == (n as int / pow(256, i)) % 256,
    decreases len,
{
    reveal(pow);
    lemma_le_len(n, len);
    if i > 0 {
        let m = (i - 1) as nat;
        law_low_bytes_come_first(n / 256, (len - 1) as nat, m);
        lemma_pow_positive(256, m);
        vstd::arithmetic::div_mod::lemma_div_denominator(n as int, 256, pow(256, m));
        assert(le_bytes(n, len)[i as int] == le_bytes(n / 256, (len - 1) as nat)[m as int]);
    } else {
        vstd::arithmetic::power::lemma_pow0(256);
    }
}

/// Words stand one behind the other, eight bytes each.
pub proof fn law_words_stand_in_order(words: Seq<u64>, i: int)
    requires
        0 <= i < words.len(),
    ensures
        word_bytes(words).len() == 8 * words.len(),
        word_bytes(words).subrange(8 * i, 8 * i + 8) == le_bytes(words[i] as nat, 8),
    decreases words.len(),
{
    let rest = words.drop_last();
    let n = words.len() - 1;
    lemma_le_len(words.last() as nat, 8);
    if i < n {
        law_words_stand_in_order(rest, i);
        assert(word_bytes(words).subrange(8 * i, 8 * i + 8) =~= word_bytes(rest).subrange(
            8 * i,
            8 * i + 8,
        ));
    } else {
        if n > 0 {
            law_words_stand_in_order(rest, 0);
        }
        assert(word_bytes(words).subrange(8 * i, 8 * i + 8) =~= le_bytes(words[i] as nat, 8));
    }
}

/// The two's complement of a number is the number but for a multiple of what eight bytes hold.
pub proof fn law_twos_complement(n: i64, m: i64)
    ensures
        0 <= twos_complement(n) < 0x1_0000_0000_0000_0000,
        twos_complement(n) == n || twos_complement(n) == n + 0x1_0000_0000_0000_0000,
        twos_complement(n) == twos_complement(m) ==> n == m,
{
}

} // verus!
