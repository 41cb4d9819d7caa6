//! Padding of binary values.

use vstd::prelude::*;

use crate::bytes;
use crate::text;
use crate::text::decimal;

verus! {

/// The first `n` bytes of a pattern that is repeated.
pub open spec fn repeated(fill: Seq<u8>, n: nat) -> Seq<u8> {
    Seq::new(n, |i: int| fill[i % fill.len() as int])
}

/// The pattern to pad with: a zero byte where none is given.
pub open spec fn pattern(fill: Option<Seq<u8>>) -> Seq<u8> {
    match fill {
        Some(f) => f,
        None => seq![0u8],
    }
}

/// The bytes of a slice, if there is one.
pub open spec fn optional_bytes(fill: Option<&[u8]>) -> Option<Seq<u8>> {
    match fill {
        Some(f) => Some(f@),
        None => None,
    }
}

/// A value padded on the left to a length, or its last bytes where it is longer.
pub open spec fn left_padded(src: Seq<u8>, target_len: nat, fill: Seq<u8>) -> Seq<u8> {
    if src.len() >= target_len {
        src.skip(src.len() - target_len)
    } else if fill.len() == 0 {
        src
    } else {
        repeated(fill, (target_len - src.len()) as nat) + src
    }
}

/// A value padded on the right to a length, or its first bytes where it is longer.
pub open spec fn right_padded(src: Seq<u8>, target_len: nat, fill: Seq<u8>) -> Seq<u8> {
    if src.len() >= target_len {
        src.take(target_len as int)
    } else if fill.len() == 0 {
        src
    } else {
        src + repeated(fill, (target_len - src.len()) as nat)
    }
}

fn push_repeated(out: &mut Vec<u8>, fill: &[u8], n: usize)
    requires
        fill@.len() > 0,
    ensures
        final(out)@ == old(out)@ + repeated(fill@, n as nat),
{
    let ghost start = out@;
    let mut i: usize = 0;
    let mut at: usize = 0;
    assert(start + repeated(fill@, 0) =~= start);
    while i < n
        invariant
            i <= n,
            fill@.len() > 0,
            at < fill@.len(),
            at as int == i as int % fill@.len() as int,
            out@ == start + repeated(fill@, i as nat),
        decreases n - i,
    {
        out.push(fill[at]);
        proof {
            assert(start + repeated(fill@, (i + 1) as nat) =~= (start + repeated(
                fill@,
                i as nat,
            )).push(fill@[at as int]));
            lemma_next_remainder(i as int, fill@.len() as int);
        }
        at = at + 1;
        if at == fill.len() {
            at = 0;
        }
        i = i + 1;
    }
}

proof fn lemma_next_remainder(i: int, n: int)
    requires
        0 <= i,
        0 < n,
    ensures
        (i + 1) % n == if i % n + 1 == n {
            0
        } else {
            i % n + 1
        },
{
    let q = i / n;
    let r = i % n;
    vstd::arithmetic::div_mod::lemma_fundamental_div_mod(i, n);
    if r + 1 == n {
        assert((i + 1) == n * (q + 1) + 0) by (nonlinear_arith)
            requires
                i == n * q + r,
                r + 1 == n,
        ;
        vstd::arithmetic::div_mod::lemma_fundamental_div_mod_converse(i + 1, n, q + 1, 0);
    } else {
        vstd::arithmetic::div_mod::lemma_fundamental_div_mod_converse(i + 1, n, q, r + 1);
    }
}

/// Pads a value on the left to a length with a pattern.
pub fn binary_lpad(src: &[u8], target_len: usize, fill: Option<&[u8]>) -> (out: Vec<u8>)
    ensures
        out@ == left_padded(src@, target_len as nat, pattern(optional_bytes(fill))),
{
    if src.len() >= target_len {
        let out = bytes::copy_range(src, src.len() - target_len, src.len());
        assert(out@ =~= src@.skip(src@.len() - target_len));
        return out;
    }
    let pad: usize = target_len - src.len();
    let mut out: Vec<u8> = Vec::new();
    match fill {
        Some(f) => {
            if f.len() == 0 {
                return bytes::copy(src);
            }
            push_repeated(&mut out, f, pad);
        },
        None => {
            let mut zero: Vec<u8> = Vec::new();
            zero.push(0);
            assert(zero@ =~= seq![0u8]);
            push_repeated(&mut out, zero.as_slice(), pad);
        },
    }
    bytes::append(&mut out, src);
    assert(out@ =~= left_padded(src@, target_len as nat, pattern(optional_bytes(fill))));
    out
}

/// Pads a value on the right to a length with a pattern.
pub fn binary_rpad(src: &[u8], target_len: usize, fill: Option<&[u8]>) -> (out: Vec<u8>)
    ensures
        out@ == right_padded(src@, target_len as nat, pattern(optional_bytes(fill))),
{
    if src.len() >= target_len {
        let out = bytes::copy_range(src, 0, target_len);
        assert(out@ =~= src@.take(target_len as int));
        return out;
    }
    let pad: usize = target_len - src.len();
    let mut out = bytes::copy(src);
    match fill {
        Some(f) => {
            if f.len() == 0 {
                return out;
            }
            push_repeated(&mut out, f, pad);
        },
        None => {
            let mut zero: Vec<u8> = Vec::new();
            zero.push(0);
            assert(zero@ =~= seq![0u8]);
            push_repeated(&mut out, zero.as_slice(), pad);
        },
    }
    out
}

/// The side that is padded.
#[derive(Debug, Clone, Copy, PartialEq, Eq, Structural)]
pub enum PadSide {
    Left,
    Right,
}

/// A value padded on a side.
pub open spec fn padded(side: PadSide, src: Seq<u8>, target_len: nat, fill: Seq<u8>) -> Seq<u8> {
    match side {
        PadSide::Left => left_padded(src, target_len, fill),
        PadSide::Right => right_padded(src, target_len, fill),
    }
}

/// The result for a row: `fill` is absent where no pattern is given, and holds nothing where it is
/// null.
pub open spec fn padded_row(
    side: PadSide,
    src: Option<Seq<u8>>,
    len: Option<i64>,
    fill: Option<Option<Seq<u8>>>,
) -> Option<Seq<u8>> {
    match (src, len) {
        (Some(s), Some(n)) => if n < 0 {
            Some(Seq::empty())
        } else {
            match fill {
                Some(None) => None,
                Some(Some(f)) => Some(padded(side, s, (n as usize) as nat, f)),
                None => Some(padded(side, s, (n as usize) as nat, seq![0u8])),
            }
        },
        _ => None,
    }
}

/// The bytes of a pattern that may be absent or null.
pub open spec fn fill_bytes(fill: Option<Option<&[u8]>>) -> Option<Option<Seq<u8>>> {
    match fill {
        Some(f) => Some(optional_bytes(f)),
        None => None,
    }
}

/// Pads the value of a row: null where the value, the length or the pattern is, and empty where the
/// length is negative.
pub fn pad_row(
    side: PadSide,
    src: Option<&[u8]>,
    len: Option<i64>,
    fill: Option<Option<&[u8]>>,
) -> (out: Option<Vec<u8>>)
    ensures
        match out {
            Some(o) => padded_row(side, optional_bytes(src), len, fill_bytes(fill)) == Some(o@),
            None => padded_row(side, optional_bytes(src), len, fill_bytes(fill)) is None,
        },
{
    let (s, n) = match (src, len) {
        (Some(s), Some(n)) => (s, n),
        _ => {
            return None;
        },
    };
    if n < 0 {
        let none: Vec<u8> = Vec::new();
        assert(none@ =~= Seq::<u8>::empty());
        return Some(none);
    }
    let given: Option<&[u8]> = match fill {
        Some(f) => {
            match f {
                Some(p) => Some(p),
                None => {
                    return None;
                },
            }
        },
        None => None,
    };
    match side {
        PadSide::Left => Some(binary_lpad(s, n as usize, given)),
        PadSide::Right => Some(binary_rpad(s, n as usize, given)),
    }
}

/// Why the number of arguments is refused.
#[derive(Debug, Clone, Copy, PartialEq, Eq, Structural)]
pub struct PadArgumentCount {
    pub side: PadSide,
    pub count: usize,
}

impl PadArgumentCount {
    /// The message for the user.
    pub open spec fn text(self) -> Seq<char> {
        (match self.side {
            PadSide::Left => "spark_binary_lpad"@,
            PadSide::Right => "spark_binary_rpad"@,
        }) + " requires 2 or 3 arguments, got "@ + decimal(self.count as nat)
    }

    /// The message for the user.
    pub fn message(&self) -> (out: String)
        ensures
            out@ == self.text(),
    {
        let mut out = match self.side {
            PadSide::Left => "spark_binary_lpad".to_owned(),
            PadSide::Right => "spark_binary_rpad".to_owned(),
        };
        out.append(" requires 2 or 3 arguments, got ");
        text::push_decimal(&mut out, self.count as u64);
        out
    }
}

/// Checks the number of arguments: whether a pattern is given.
pub fn check_arguments(side: PadSide, count: usize) -> (result: Result<bool, PadArgumentCount>)
    ensures
        result == if count == 2 || count == 3 {
            Ok::<bool, PadArgumentCount>(count == 3)
        } else {
            Err::<bool, PadArgumentCount>(PadArgumentCount { side, count })
        },
{
    if count < 2 || count > 3 {
        Err(PadArgumentCount { side, count })
    } else {
        Ok(count == 3)
    }
}

/// A padded value has the length asked for, unless there is nothing to pad it with, and holds the
/// value where that is no longer: at its end where it is padded on the left, at its start where on
/// the right.
pub proof fn law_padding_keeps_the_value(src: Seq<u8>, target_len: nat, fill: Seq<u8>)
    requires
        fill.len() > 0,
    ensures
        left_padded(src, target_len, fill).len() == target_len,
        right_padded(src, target_len, fill).len() == target_len,
        src.len() <= target_len ==> left_padded(src, target_len, fill).skip(
            target_len - src.len(),
        ) == src,
        src.len() <= target_len ==> right_padded(src, target_len, fill).take(src.len() as int)
            == src,
{
    if src.len() <= target_len {
        let left = left_padded(src, target_len, fill);
        let right = right_padded(src, target_len, fill);
        assert(left.skip(target_len - src.len()) =~= src);
        assert(right.take(src.len() as int) =~= src);
    }
}

/// Bytes that are filled in repeat the pattern from its start, on their side of the value.
pub proof fn law_fill_repeats_from_its_start(src: Seq<u8>, target_len: nat, fill: Seq<u8>, i: int)
    requires
        fill.len() > 0,
        0 <= i < target_len - src.len(),
    ensures
        left_padded(src, target_len, fill)[i] == fill[i % fill.len() as int],
        right_padded(src, target_len, fill)[src.len() + i] == fill[i % fill.len() as int],
{
}

/// A value that is too long loses its start on the left and its end on the right; one that cannot be
/// filled stays short.
pub proof fn law_long_values_are_cut(src: Seq<u8>, target_len: nat, fill: Seq<u8>)
    ensures
        target_len <= src.len() ==> {
            &&& left_padded(src, target_len, fill).len() == target_len
            &&& src.skip(src.len() - target_len) == left_padded(src, target_len, fill)
            &&& src.take(target_len as int) == right_padded(src, target_len, fill)
        },
        target_len > src.len() && fill.len() == 0 ==> left_padded(src, target_len, fill) == src
            && right_padded(src, target_len, fill) == src,
{
}

/// A row without a value, a length or a given filling has no result; a negative length gives an
/// empty one; and without a filling zeros are filled in.
pub proof fn law_rows_without_values_stay_empty(
    side: PadSide,
    src: Option<Seq<u8>>,
    len: Option<i64>,
    fill: Option<Option<Seq<u8>>>,
)
    ensures
        padded_row(side, src, len, fill) is None <==> src is None || len is None || (len->0 >= 0
            && fill == Some(None::<Seq<u8>>)),
        src is Some && len is Some && len->0 < 0 ==> padded_row(side, src, len, fill) == Some(
            Seq::<u8>::empty(),
        ),
        src is Some && len is Some && 0 <= len->0 <= usize::MAX && fill is None ==> padded_row(
            side,
            src,
            len,
            fill,
        )->0.len() == len->0,
        src is Some && len is Some && 0 <= len->0 <= usize::MAX ==> forall|f: Seq<u8>|
            #[trigger] padded_row(side, src, len, Some(Some(f)))->0 == if side == PadSide::Left {
                left_padded(src->0, len->0 as nat, f)
            } else {
                right_padded(src->0, len->0 as nat, f)
            },
{
    if src is Some && len is Some && 0 <= len->0 <= usize::MAX && fill is None {
        assert(padded_row(side, src, len, fill) == Some(
            padded(side, src->0, len->0 as nat, seq![0u8]),
        ));
    }
}

} // verus!
