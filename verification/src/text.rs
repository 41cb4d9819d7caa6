//! Text helpers: decimal numbers, splitting, trimming and letter case.

use vstd::prelude::*;
use vstd::string::*;
use vstd::utf8::*;

verus! {

/// `String::push` appends one character.
pub assume_specification[ String::push ](buf: &mut String, c: char)
    ensures
        final(buf)@ == old(buf)@.push(c),
;

/// The characters of a text.
pub fn to_chars(s: &str) -> (chars: Vec<char>)
    ensures
        chars@ == s@,
{
    let mut out: Vec<char> = Vec::new();
    for c in it: s.chars()
        invariant
            out@ == it.seq().take(it.index() as int),
            it.seq() == s@,
    {
        out.push(c);
    }
    assert(out@ =~= s@);
    out
}

/// The text made of `chars[from..to]`.
pub fn from_chars(chars: &Vec<char>, from: usize, to: usize) -> (s: String)
    requires
        from <= to <= chars@.len(),
    ensures
        s@ == chars@.subrange(from as int, to as int),
{
    let mut out = String::new();
    let mut i = from;
    while i < to
        invariant
            from <= i <= to <= chars@.len(),
            out@ == chars@.subrange(from as int, i as int),
        decreases to - i,
    {
        out.push(chars[i]);
        i = i + 1;
        assert(out@ =~= chars@.subrange(from as int, i as int));
    }
    out
}

/// Whether two texts are the same.
pub fn str_eq(a: &str, b: &str) -> (same: bool)
    ensures
        same == (a@ == b@),
{
    let x = a.as_bytes();
    let y = b.as_bytes();
    proof {
        encode_utf8_decode_utf8(a@);
        encode_utf8_decode_utf8(b@);
    }
    if x.len() != y.len() {
        return false;
    }
    let mut i: usize = 0;
    while i < x.len()
        invariant
            x@.len() == y@.len(),
            i <= x@.len(),
            x@ == encode_utf8(a@),
            y@ == encode_utf8(b@),
            x@.take(i as int) == y@.take(i as int),
        decreases x@.len() - i,
    {
        if x[i] != y[i] {
            return false;
        }
        i = i + 1;
        assert(x@.take(i as int) =~= x@.take(i - 1).push(x@[i - 1]));
        assert(y@.take(i as int) =~= y@.take(i - 1).push(y@[i - 1]));
    }
    assert(x@.take(i as int) =~= x@);
    assert(y@.take(i as int) =~= y@);
    true
}

/// The character of a decimal digit.
pub open spec fn digit_char(d: nat) -> char {
    (('0' as u32) + d) as char
}

/// The decimal digits of a number, without leading zeros.
pub open spec fn decimal(n: nat) -> Seq<char>
    decreases n,
{
    if n < 10 {
        seq![digit_char(n)]
    } else {
        decimal(n / 10).push(digit_char(n % 10))
    }
}

/// The decimal digits of a signed number, after a minus sign where it is negative.
pub open spec fn signed_decimal(n: int) -> Seq<char> {
    if n < 0 {
        seq!['-'] + decimal((-n) as nat)
    } else {
        decimal(n as nat)
    }
}

/// Appends the decimal digits of a number.
pub fn push_decimal(out: &mut String, n: u64)
    ensures
        final(out)@ == old(out)@ + decimal(n as nat),
    decreases n,
{
    if n >= 10 {
        push_decimal(out, n / 10);
    }
    let d: u8 = (n % 10) as u8;
    out.push((48u8 + d) as char);
    assert(out@ =~= old(out)@ + decimal(n as nat));
}

/// The decimal digits of a number as a text.
pub fn u64_to_text(n: u64) -> (s: String)
    ensures
        s@ == decimal(n as nat),
{
    let mut out = String::new();
    push_decimal(&mut out, n);
    assert(out@ =~= decimal(n as nat));
    out
}

/// Appends the decimal digits of a signed number.
pub fn push_signed_decimal(out: &mut String, n: i64)
    ensures
        final(out)@ == old(out)@ + signed_decimal(n as int),
{
    if n < 0 {
        out.push('-');
        let wide: i128 = -(n as i128);
        push_decimal(out, wide as u64);
        assert(out@ =~= old(out)@ + signed_decimal(n as int));
    } else {
        push_decimal(out, n as u64);
    }
}

/// Whether a character is an ASCII decimal digit.
pub open spec fn is_digit(c: char) -> bool {
    '0' <= c <= '9'
}

/// The value of a decimal digit.
pub open spec fn digit_value(c: char) -> nat {
    (c as nat - '0' as nat) as nat
}

/// Whether a text is one or more decimal digits.
pub open spec fn all_digits(s: Seq<char>) -> bool {
    s.len() > 0 && forall|i: int| 0 <= i < s.len() ==> is_digit(#[trigger] s[i])
}

/// The value of a text of decimal digits.
pub open spec fn number(s: Seq<char>) -> nat
    decreases s.len(),
{
    if s.len() == 0 {
        0
    } else {
        number(s.drop_last()) * 10 + digit_value(s.last())
    }
}

/// The number that a text denotes where it is an optional plus sign and digits, and the value is
/// at most `max`.
pub open spec fn parse_unsigned(s: Seq<char>, max: nat) -> Option<nat> {
    let digits = if s.len() > 0 && s[0] == '+' {
        s.skip(1)
    } else {
        s
    };
    if all_digits(digits) && number(digits) <= max {
        Some(number(digits))
    } else {
        None
    }
}

/// The number that a text denotes where it is an optional sign and digits, and the value is
/// between `min` and `max`.
pub open spec fn parse_signed(s: Seq<char>, min: int, max: int) -> Option<int> {
    if s.len() > 0 && s[0] == '-' {
        if all_digits(s.skip(1)) && -number(s.skip(1)) >= min {
            Some(-number(s.skip(1)))
        } else {
            None
        }
    } else {
        match parse_unsigned(s, max as nat) {
            Some(n) => Some(n as int),
            None => None,
        }
    }
}

proof fn lemma_number_prefix(s: Seq<char>, i: int)
    requires
        0 <= i <= s.len(),
    ensures
        number(s.take(i)) <= number(s),
    decreases s.len(),
{
    if i < s.len() {
        lemma_number_prefix(s.drop_last(), i);
        assert(s.drop_last().take(i) =~= s.take(i));
    } else {
        assert(s.take(i) =~= s);
    }
}

/// The digits of a number denote that number.
pub proof fn lemma_decimal_denotes(n: nat)
    ensures
        all_digits(decimal(n)),
        number(decimal(n)) == n,
        parse_unsigned(decimal(n), n) == Some(n),
    decreases n,
{
    if n >= 10 {
        lemma_decimal_denotes(n / 10);
        assert(decimal(n).drop_last() =~= decimal(n / 10));
        assert forall|i: int| 0 <= i < decimal(n).len() implies is_digit(
            #[trigger] decimal(n)[i],
        ) by {
            if i < decimal(n / 10).len() {
                assert(decimal(n)[i] == decimal(n / 10)[i]);
            }
        }
    } else {
        assert(decimal(n).drop_last() =~= Seq::<char>::empty());
        assert(number(decimal(n).drop_last()) == 0);
    }
    assert(is_digit(decimal(n)[0]));
}

/// Different numbers have different digits.
pub proof fn lemma_decimal_injective(m: nat, n: nat)
    requires
        decimal(m) == decimal(n),
    ensures
        m == n,
{
    lemma_decimal_denotes(m);
    lemma_decimal_denotes(n);
}

fn parse_digits(chars: &Vec<char>, from: usize, max: u64) -> (value: Option<u64>)
    requires
        from <= chars@.len(),
    ensures
        ({
            let digits = chars@.skip(from as int);
            if all_digits(digits) && number(digits) <= max {
                value == Some(number(digits) as u64)
            } else {
                value == None::<u64>
            }
        }),
{
    let ghost digits = chars@.skip(from as int);
    if from == chars.len() {
        return None;
    }
    let mut acc: u64 = 0;
    let mut i = from;
    while i < chars.len()
        invariant
            from <= i <= chars@.len(),
            digits == chars@.skip(from as int),
            acc == number(digits.take(i - from)),
            acc <= max,
            forall|j: int| 0 <= j < i - from ==> is_digit(#[trigger] digits[j]),
        decreases chars@.len() - i,
    {
        let c = chars[i];
        assert(c == digits[i - from]);
        if !(c >= '0' && c <= '9') {
            return None;
        }
        let d: u64 = (c as u32 - '0' as u32) as u64;
        let wide: u128 = acc as u128 * 10 + d as u128;
        proof {
            let taken = digits.take(i - from + 1);
            assert(taken.drop_last() =~= digits.take(i - from));
            assert(number(taken) == wide);
            lemma_number_prefix(digits, i - from + 1);
        }
        if wide > max as u128 {
            return None;
        }
        acc = wide as u64;
        i = i + 1;
    }
    assert(digits.take(i - from) =~= digits);
    Some(acc)
}

/// Parses an optional plus sign and decimal digits into a number of at most `max`.
pub fn parse_u64_up_to(s: &str, max: u64) -> (value: Option<u64>)
    ensures
        value == (match parse_unsigned(s@, max as nat) {
            Some(n) => Some(n as u64),
            None => None,
        }),
{
    let chars = to_chars(s);
    if chars.len() > 0 && chars[0] == '+' {
        parse_digits(&chars, 1, max)
    } else {
        assert(chars@.skip(0) =~= s@);
        parse_digits(&chars, 0, max)
    }
}

/// Parses a `u64`.
pub fn parse_u64(s: &str) -> (value: Option<u64>)
    ensures
        value == (match parse_unsigned(s@, u64::MAX as nat) {
            Some(n) => Some(n as u64),
            None => None,
        }),
{
    parse_u64_up_to(s, u64::MAX)
}

/// Parses an `i32`.
pub fn parse_i32(s: &str) -> (value: Option<i32>)
    ensures
        value == (match parse_signed(s@, i32::MIN as int, i32::MAX as int) {
            Some(n) => Some(n as i32),
            None => None,
        }),
{
    let chars = to_chars(s);
    if chars.len() > 0 && chars[0] == '-' {
        match parse_digits(&chars, 1, 0x8000_0000) {
            Some(n) => {
                let wide: i64 = -(n as i64);
                Some(wide as i32)
            },
            None => None,
        }
    } else {
        match parse_u64_up_to(s, i32::MAX as u64) {
            Some(n) => Some(n as i32),
            None => None,
        }
    }
}

/// The pieces of a text between the occurrences of a separator.
pub open spec fn split_on(s: Seq<char>, sep: char) -> Seq<Seq<char>>
    decreases s.len(),
{
    if s.len() == 0 {
        seq![Seq::empty()]
    } else {
        let before = split_on(s.drop_last(), sep);
        if s.last() == sep {
            before.push(Seq::empty())
        } else {
            before.drop_last().push(before.last().push(s.last()))
        }
    }
}

/// The pieces put back together with the separator between them.
pub open spec fn join_with(pieces: Seq<Seq<char>>, sep: char) -> Seq<char>
    decreases pieces.len(),
{
    if pieces.len() == 0 {
        Seq::empty()
    } else if pieces.len() == 1 {
        pieces[0]
    } else {
        join_with(pieces.drop_last(), sep).push(sep) + pieces.last()
    }
}

/// Splitting leaves at least one piece, none of which holds the separator, and joining the pieces
/// gives the text back.
pub proof fn lemma_split_join(s: Seq<char>, sep: char)
    ensures
        split_on(s, sep).len() > 0,
        forall|i: int, j: int|
            0 <= i < split_on(s, sep).len() && 0 <= j < split_on(s, sep)[i].len()
                ==> #[trigger] split_on(s, sep)[i][j] != sep,
        join_with(split_on(s, sep), sep) == s,
    decreases s.len(),
{
    if s.len() > 0 {
        let before = split_on(s.drop_last(), sep);
        let after = split_on(s, sep);
        lemma_split_join(s.drop_last(), sep);
        if s.last() == sep {
            assert(after.drop_last() =~= before);
            assert(join_with(after, sep) =~= join_with(before, sep).push(sep));
            assert(s =~= s.drop_last().push(sep));
        } else {
            assert(after.drop_last() =~= before.drop_last());
            assert(join_with(after, sep) =~= join_with(before, sep).push(s.last()));
            assert(s =~= s.drop_last().push(s.last()));
            assert forall|i: int, j: int|
                0 <= i < after.len() && 0 <= j < after[i].len() implies #[trigger] after[i][j]
                != sep by {
                if i < before.len() - 1 {
                    assert(after[i][j] == before[i][j]);
                } else if j < before.last().len() {
                    assert(after[i][j] == before[before.len() - 1][j]);
                }
            }
        }
    }
}

/// The views of a vector of texts.
pub open spec fn texts(v: Seq<String>) -> Seq<Seq<char>> {
    v.map_values(|s: String| s@)
}

/// Splits a text at each occurrence of a separator.
pub fn split(s: &str, sep: char) -> (pieces: Vec<String>)
    ensures
        texts(pieces@) == split_on(s@, sep),
{
    let chars = to_chars(s);
    let mut pieces: Vec<String> = Vec::new();
    let mut piece = String::new();
    let mut i: usize = 0;
    assert(texts(pieces@).push(piece@) =~= split_on(s@.take(0), sep));
    while i < chars.len()
        invariant
            i <= chars@.len(),
            chars@ == s@,
            texts(pieces@).push(piece@) == split_on(s@.take(i as int), sep),
        decreases chars@.len() - i,
    {
        let ghost before = texts(pieces@).push(piece@);
        assert(s@.take(i + 1).drop_last() =~= s@.take(i as int));
        let c = chars[i];
        if c == sep {
            pieces.push(piece);
            piece = String::new();
            assert(texts(pieces@).push(piece@) =~= before.push(Seq::empty()));
        } else {
            piece.push(c);
            assert(texts(pieces@).push(piece@) =~= before.drop_last().push(before.last().push(c)));
        }
        i = i + 1;
    }
    assert(s@.take(i as int) =~= s@);
    let ghost done = texts(pieces@).push(piece@);
    pieces.push(piece);
    assert(texts(pieces@) =~= done);
    pieces
}

/// Whether a character has the Unicode property `White_Space`.
pub open spec fn is_white_space(c: char) -> bool {
    let u = c as u32;
    ||| 0x9 <= u <= 0xd
    ||| u == 0x20
    ||| u == 0x85
    ||| u == 0xa0
    ||| u == 0x1680
    ||| 0x2000 <= u <= 0x200a
    ||| u == 0x2028
    ||| u == 0x2029
    ||| u == 0x202f
    ||| u == 0x205f
    ||| u == 0x3000
}

fn white_space(c: char) -> (white: bool)
    ensures
        white == is_white_space(c),
{
    let u = c as u32;
    (0x9 <= u && u <= 0xd) || u == 0x20 || u == 0x85 || u == 0xa0 || u == 0x1680 || (0x2000 <= u
        && u <= 0x200a) || u == 0x2028 || u == 0x2029 || u == 0x202f || u == 0x205f || u == 0x3000
}

/// A text without its leading white space.
pub open spec fn trim_start_of(s: Seq<char>) -> Seq<char>
    decreases s.len(),
{
    if s.len() > 0 && is_white_space(s[0]) {
        trim_start_of(s.skip(1))
    } else {
        s
    }
}

/// A text without its trailing white space.
pub open spec fn trim_end_of(s: Seq<char>) -> Seq<char>
    decreases s.len(),
{
    if s.len() > 0 && is_white_space(s.last()) {
        trim_end_of(s.drop_last())
    } else {
        s
    }
}

/// A text without its leading and trailing white space.
pub open spec fn trimmed(s: Seq<char>) -> Seq<char> {
    trim_end_of(trim_start_of(s))
}

/// Removes leading white space.
pub fn trim_start(s: &str) -> (out: String)
    ensures
        out@ == trim_start_of(s@),
{
    let chars = to_chars(s);
    let mut from: usize = 0;
    assert(s@.skip(0) =~= s@);
    while from < chars.len() && white_space(chars[from])
        invariant
            from <= chars@.len(),
            chars@ == s@,
            trim_start_of(s@) == trim_start_of(s@.skip(from as int)),
        decreases chars@.len() - from,
    {
        assert(s@.skip(from as int).skip(1) =~= s@.skip(from + 1));
        from = from + 1;
    }
    let end: usize = chars.len();
    assert(s@.subrange(from as int, end as int) =~= s@.skip(from as int));
    from_chars(&chars, from, end)
}

/// Removes leading and trailing white space.
pub fn trim(s: &str) -> (out: String)
    ensures
        out@ == trimmed(s@),
{
    let left = trim_start(s);
    let chars = to_chars(left.as_str());
    let mut to: usize = chars.len();
    assert(left@.take(to as int) =~= left@);
    while to > 0 && white_space(chars[to - 1])
        invariant
            to <= chars@.len(),
            chars@ == left@,
            trim_end_of(left@) == trim_end_of(left@.take(to as int)),
        decreases to,
    {
        assert(left@.take(to as int).drop_last() =~= left@.take(to - 1));
        to = to - 1;
    }
    assert(left@.subrange(0, to as int) =~= left@.take(to as int));
    from_chars(&chars, 0, to)
}

/// The ASCII lower-case form of a character.
pub open spec fn ascii_lower(c: char) -> char {
    if 'A' <= c <= 'Z' {
        (c as u32 + 32) as char
    } else {
        c
    }
}

/// The ASCII upper-case form of a character.
pub open spec fn ascii_upper(c: char) -> char {
    if 'a' <= c <= 'z' {
        (c as u32 - 32) as char
    } else {
        c
    }
}

/// `n` zeros.
pub open spec fn zeros(n: nat) -> Seq<char> {
    Seq::new(n, |i: int| '0')
}

/// Whether two texts differ at most in the case of their ASCII letters.
pub open spec fn same_ignoring_case(a: Seq<char>, b: Seq<char>) -> bool {
    &&& a.len() == b.len()
    &&& forall|i: int| 0 <= i < a.len() ==> ascii_lower(#[trigger] a[i]) == ascii_lower(b[i])
}

fn lower_char(c: char) -> (lower: char)
    ensures
        lower == ascii_lower(c),
{
    if 'A' <= c && c <= 'Z' {
        let code: u32 = c as u32 + 32;
        code as u8 as char
    } else {
        c
    }
}

/// Whether two texts differ at most in the case of their ASCII letters.
pub fn eq_ignore_ascii_case(a: &str, b: &str) -> (same: bool)
    ensures
        same == same_ignoring_case(a@, b@),
{
    let left = to_chars(a);
    let right = to_chars(b);
    if left.len() != right.len() {
        return false;
    }
    let mut i: usize = 0;
    while i < left.len()
        invariant
            i <= left@.len() == right@.len(),
            left@ == a@,
            right@ == b@,
            forall|k: int| 0 <= k < i ==> ascii_lower(#[trigger] a@[k]) == ascii_lower(b@[k]),
        decreases left@.len() - i,
    {
        if lower_char(left[i]) != lower_char(right[i]) {
            assert(ascii_lower(a@[i as int]) != ascii_lower(b@[i as int]));
            return false;
        }
        i = i + 1;
    }
    true
}

/// The text that `str::to_lowercase` returns.
pub uninterp spec fn lowercase(s: Seq<char>) -> Seq<char>;

/// The text that `str::to_uppercase` returns.
pub uninterp spec fn uppercase(s: Seq<char>) -> Seq<char>;

/// `str::to_lowercase`: the Unicode lower-case mapping of a text. Of an ASCII text it is the text
/// with each letter from `A` to `Z` replaced.
#[verifier::external_body]
pub(crate) fn to_lowercase(s: &str) -> (out: String)
    ensures
        out@ == lowercase(s@),
        is_ascii_chars(s@) ==> out@ == s@.map_values(|c: char| ascii_lower(c)),
{
    s.to_lowercase()
}

/// `str::to_uppercase`: the Unicode upper-case mapping of a text. Of an ASCII text it is the text
/// with each letter from `a` to `z` replaced.
#[verifier::external_body]
pub(crate) fn to_uppercase(s: &str) -> (out: String)
    ensures
        out@ == uppercase(s@),
        is_ascii_chars(s@) ==> out@ == s@.map_values(|c: char| ascii_upper(c)),
{
    s.to_uppercase()
}

/// A text in quotes, with what cannot be shown escaped, as `std` shows it for debugging.
pub uninterp spec fn debug_text(s: Seq<char>) -> Seq<char>;

/// The `Debug` form of a `str`, by `format!`.
#[verifier::external_body]
pub(crate) fn quote(s: &str) -> (out: String)
    ensures
        out@ == debug_text(s@),
{
    format!("{s:?}")
}

/// Whether `s` begins with `prefix`.
pub open spec fn has_prefix(s: Seq<char>, prefix: Seq<char>) -> bool {
    s.len() >= prefix.len() && s.take(prefix.len() as int) == prefix
}

/// Whether `s` ends with `suffix`.
pub open spec fn has_suffix(s: Seq<char>, suffix: Seq<char>) -> bool {
    s.len() >= suffix.len() && s.skip(s.len() - suffix.len()) == suffix
}

fn chars_at(chars: &Vec<char>, at: usize, what: &Vec<char>) -> (found: bool)
    requires
        at <= chars@.len(),
    ensures
        found == has_prefix(chars@.skip(at as int), what@),
{
    let ghost rest = chars@.skip(at as int);
    if chars.len() - at < what.len() {
        return false;
    }
    let mut i: usize = 0;
    while i < what.len()
        invariant
            at <= chars@.len(),
            what@.len() <= chars@.len() - at,
            chars@.len() <= usize::MAX,
            rest == chars@.skip(at as int),
            i <= what@.len(),
            rest.take(i as int) == what@.take(i as int),
        decreases what@.len() - i,
    {
        if chars[at + i] != what[i] {
            assert(rest.take(what@.len() as int)[i as int] != what@[i as int]);
            return false;
        }
        i = i + 1;
        assert(rest.take(i as int) =~= rest.take(i - 1).push(rest[i - 1]));
        assert(what@.take(i as int) =~= what@.take(i - 1).push(what@[i - 1]));
    }
    assert(what@.take(i as int) =~= what@);
    true
}

/// Whether a text begins with another.
pub fn starts_with(s: &str, prefix: &str) -> (found: bool)
    ensures
        found == has_prefix(s@, prefix@),
{
    let chars = to_chars(s);
    let what = to_chars(prefix);
    assert(chars@.skip(0) =~= s@);
    chars_at(&chars, 0, &what)
}

/// Whether a text ends with another.
pub fn ends_with(s: &str, suffix: &str) -> (found: bool)
    ensures
        found == has_suffix(s@, suffix@),
{
    let chars = to_chars(s);
    let what = to_chars(suffix);
    if chars.len() < what.len() {
        return false;
    }
    let at: usize = chars.len() - what.len();
    proof {
        let rest = chars@.skip(at as int);
        assert(rest.take(what@.len() as int) =~= rest);
    }
    chars_at(&chars, at, &what)
}

/// The rest of a text after a prefix that it has.
pub fn strip_prefix(s: &str, prefix: &str) -> (rest: Option<String>)
    ensures
        match rest {
            Some(r) => has_prefix(s@, prefix@) && r@ == s@.skip(prefix@.len() as int),
            None => !has_prefix(s@, prefix@),
        },
{
    if !starts_with(s, prefix) {
        return None;
    }
    let chars = to_chars(s);
    let what = to_chars(prefix);
    let from: usize = what.len();
    let to: usize = chars.len();
    assert(s@.subrange(from as int, to as int) =~= s@.skip(from as int));
    Some(from_chars(&chars, from, to))
}

/// Whether `what` occurs in `s`.
pub open spec fn occurs(s: Seq<char>, what: Seq<char>) -> bool {
    exists|i: int| 0 <= i <= s.len() && has_prefix(#[trigger] s.skip(i), what)
}

/// Whether a text holds another.
pub fn contains_text(s: &str, what: &str) -> (found: bool)
    ensures
        found == occurs(s@, what@),
{
    let chars = to_chars(s);
    let w = to_chars(what);
    let mut i: usize = 0;
    loop
        invariant
            i <= chars@.len(),
            chars@ == s@,
            w@ == what@,
            forall|j: int| 0 <= j < i ==> !has_prefix(#[trigger] s@.skip(j), what@),
        decreases chars@.len() - i,
    {
        if chars_at(&chars, i, &w) {
            return true;
        }
        if i == chars.len() {
            return false;
        }
        i = i + 1;
    }
}

/// The position of the last occurrence of a character.
pub open spec fn last_position(s: Seq<char>, c: char) -> int
    decreases s.len(),
{
    if s.len() == 0 {
        -1
    } else if s.last() == c {
        s.len() - 1
    } else {
        last_position(s.drop_last(), c)
    }
}

/// Splits a text at the last occurrence of a separator.
pub fn rsplit_once(s: &str, sep: char) -> (halves: Option<(String, String)>)
    ensures
        ({
            let at = last_position(s@, sep);
            match halves {
                Some(h) => 0 <= at < s@.len() && s@[at] == sep && h.0@ == s@.take(at) && h.1@
                    == s@.skip(at + 1),
                None => at == -1,
            }
        }),
{
    let chars = to_chars(s);
    let mut i: usize = chars.len();
    assert(s@.take(i as int) =~= s@);
    while i > 0
        invariant
            i <= chars@.len(),
            chars@ == s@,
            last_position(s@, sep) == last_position(s@.take(i as int), sep),
        decreases i,
    {
        assert(s@.take(i as int).last() == s@[i - 1]);
        assert(s@.take(i as int).drop_last() =~= s@.take(i - 1));
        if chars[i - 1] == sep {
            let at: usize = i - 1;
            let end: usize = chars.len();
            assert(s@.subrange(0, at as int) =~= s@.take(at as int));
            assert(s@.subrange(at + 1, end as int) =~= s@.skip(at + 1));
            return Some((from_chars(&chars, 0, at), from_chars(&chars, at + 1, end)));
        }
        i = i - 1;
    }
    None
}

/// The texts one after the other.
pub fn concat(a: &str, b: &str) -> (s: String)
    ensures
        s@ == a@ + b@,
{
    let mut out = a.to_owned();
    out.append(b);
    out
}

/// The last position of a character is one where it stands, with none behind it; there is none where
/// it does not occur.
pub proof fn law_last_position_is_the_last(s: Seq<char>, c: char)
    ensures
        -1 <= last_position(s, c) < s.len(),
        last_position(s, c) >= 0 ==> s[last_position(s, c)] == c,
        forall|i: int| last_position(s, c) < i < s.len() ==> #[trigger] s[i] != c,
    decreases s.len(),
{
    if s.len() > 0 && s.last() != c {
        law_last_position_is_the_last(s.drop_last(), c);
        assert forall|i: int| last_position(s, c) < i < s.len() implies #[trigger] s[i] != c by {
            if i < s.len() - 1 {
                assert(s.drop_last()[i] == s[i]);
            }
        }
    }
}

/// A number that is read is within its limits.
pub proof fn law_parsed_numbers_are_in_range(s: Seq<char>, min: int, max: int)
    requires
        min <= 0 <= max,
    ensures
        parse_signed(s, min, max) matches Some(n) ==> min <= n <= max,
{
}

/// The decimal digits of a number within the limits are read as that number, with or without a sign
/// in front, and nothing but digits behind at most one sign is read.
pub proof fn law_decimal_digits_are_read(n: nat, min: int, max: int)
    requires
        min <= 0 <= max,
    ensures
        parse_signed(decimal(n), min, max) == if n <= max {
            Some(n as int)
        } else {
            None
        },
        parse_signed(seq!['+'] + decimal(n), min, max) == if n <= max {
            Some(n as int)
        } else {
            None
        },
        parse_signed(seq!['-'] + decimal(n), min, max) == if -n >= min {
            Some(-n)
        } else {
            None
        },
{
    lemma_decimal_denotes(n);
    assert(is_digit(decimal(n)[0]));
    assert((seq!['+'] + decimal(n)).skip(1) =~= decimal(n));
    assert((seq!['-'] + decimal(n)).skip(1) =~= decimal(n));
}

/// Nothing is read from a text with a character that is neither a digit nor a leading sign, or from
/// one without digits.
pub proof fn law_only_digits_are_read(s: Seq<char>, i: int, min: int, max: int)
    requires
        0 <= i < s.len(),
        !('0' <= s[i] <= '9'),
        i > 0 || s.len() == 1 || !(s[0] == '-' || s[0] == '+'),
    ensures
        parse_signed(s, min, max) is None,
        parse_signed(Seq::<char>::empty(), min, max) is None,
{
    if i > 0 {
        assert(s.skip(1)[i - 1] == s[i]);
    } else {
        assert(!is_digit(s[0]));
    }
}

/// No piece of a split text holds the separator, and with separators between them the pieces are the
/// text.
pub proof fn law_pieces_hold_no_separator(s: Seq<char>, sep: char)
    ensures
        split_on(s, sep).len() >= 1,
        join_with(split_on(s, sep), sep) == s,
        forall|k: int, i: int|
            0 <= k < split_on(s, sep).len() && 0 <= i < split_on(s, sep)[k].len()
                ==> #[trigger] split_on(s, sep)[k][i] != sep,
        split_on(s, sep).len() == s.filter(|c: char| c == sep).len() + 1,
    decreases s.len(),
{
    lemma_split_join(s, sep);
    reveal(Seq::filter);
    if s.len() > 0 {
        let before = split_on(s.drop_last(), sep);
        let all = split_on(s, sep);
        law_pieces_hold_no_separator(s.drop_last(), sep);
        assert forall|k: int, i: int|
            0 <= k < all.len() && 0 <= i < all[k].len() implies #[trigger] all[k][i] != sep by {
            if k < before.len() - 1 {
                assert(all[k] == before[k]);
                assert(before[k][i] != sep);
            } else if s.last() == sep && k == before.len() - 1 {
                assert(all[k] == before[k]);
                assert(before[k][i] != sep);
            } else if s.last() != sep {
                let last = before.len() - 1;
                assert(all[k] == before[last].push(s.last()));
                if i < before[last].len() {
                    assert(before[last][i] != sep);
                }
            }
        }
    }
}

/// Trimming removes white space at both ends and nothing else.
pub proof fn law_trimming_removes_only_white_space(s: Seq<char>)
    ensures
        exists|from: int, to: int|
            {
                &&& 0 <= from <= to <= s.len()
                &&& trimmed(s) == #[trigger] s.subrange(from, to)
                &&& forall|i: int| 0 <= i < from ==> is_white_space(#[trigger] s[i])
                &&& forall|i: int| to <= i < s.len() ==> is_white_space(#[trigger] s[i])
                &&& from < to ==> !is_white_space(s[from]) && !is_white_space(s[to - 1])
            },
{
    let from = lemma_start(s);
    let to = lemma_end(s.skip(from));
    let head = s.skip(from);
    assert(trimmed(s) =~= s.subrange(from, from + to));
    assert forall|i: int| from + to <= i < s.len() implies is_white_space(#[trigger] s[i]) by {
        assert(head[i - from] == s[i]);
    }
    if to > 0 {
        assert(head[0] == s[from]);
        assert(head[to - 1] == s[from + to - 1]);
    }
    assert(s.subrange(from, from + to) == trimmed(s));
}

proof fn lemma_start(s: Seq<char>) -> (from: int)
    ensures
        0 <= from <= s.len(),
        trim_start_of(s) == s.skip(from),
        forall|i: int| 0 <= i < from ==> is_white_space(#[trigger] s[i]),
        from < s.len() ==> !is_white_space(s[from]),
    decreases s.len(),
{
    if s.len() > 0 && is_white_space(s[0]) {
        let from = lemma_start(s.skip(1));
        assert(s.skip(1).skip(from) =~= s.skip(from + 1));
        assert forall|i: int| 0 <= i < from + 1 implies is_white_space(#[trigger] s[i]) by {
            if i > 0 {
                assert(s.skip(1)[i - 1] == s[i]);
            }
        }
        if from + 1 < s.len() {
            assert(s.skip(1)[from] == s[from + 1]);
        }
        from + 1
    } else {
        assert(s.skip(0) =~= s);
        0
    }
}

proof fn lemma_end(s: Seq<char>) -> (to: int)
    ensures
        0 <= to <= s.len(),
        trim_end_of(s) == s.take(to),
        forall|i: int| to <= i < s.len() ==> is_white_space(#[trigger] s[i]),
        to > 0 ==> !is_white_space(s[to - 1]),
    decreases s.len(),
{
    if s.len() > 0 && is_white_space(s.last()) {
        let rest = s.drop_last();
        let to = lemma_end(rest);
        assert(rest.take(to) =~= s.take(to));
        assert forall|i: int| to <= i < s.len() implies is_white_space(#[trigger] s[i]) by {
            if i < rest.len() {
                assert(rest[i] == s[i]);
            }
        }
        to
    } else {
        assert(s.take(s.len() as int) =~= s);
        s.len() as int
    }
}

/// White space: the blank and the tab, the ends of lines and pages, and the spaces of other scripts
/// and of typography.
pub proof fn law_white_space_characters(c: char)
    ensures
        is_white_space(c) <==> seq![
            '\u{9}', '\u{a}', '\u{b}', '\u{c}', '\u{d}', '\u{20}', '\u{85}', '\u{a0}', '\u{1680}',
            '\u{2000}', '\u{2001}', '\u{2002}', '\u{2003}', '\u{2004}', '\u{2005}', '\u{2006}',
            '\u{2007}', '\u{2008}', '\u{2009}', '\u{200a}', '\u{2028}', '\u{2029}', '\u{202f}',
            '\u{205f}', '\u{3000}',
        ].contains(c),
{
    let all = seq![
        '\u{9}', '\u{a}', '\u{b}', '\u{c}', '\u{d}', '\u{20}', '\u{85}', '\u{a0}', '\u{1680}',
        '\u{2000}', '\u{2001}', '\u{2002}', '\u{2003}', '\u{2004}', '\u{2005}', '\u{2006}',
        '\u{2007}', '\u{2008}', '\u{2009}', '\u{200a}', '\u{2028}', '\u{2029}', '\u{202f}',
        '\u{205f}', '\u{3000}',
    ];
    assert(all.len() == 25);
    assert(all[0] == '\u{9}' && all[1] == '\u{a}' && all[2] == '\u{b}' && all[3] == '\u{c}'
        && all[4] == '\u{d}' && all[5] == '\u{20}' && all[6] == '\u{85}' && all[7] == '\u{a0}'
        && all[8] == '\u{1680}' && all[9] == '\u{2000}' && all[10] == '\u{2001}' && all[11]
        == '\u{2002}' && all[12] == '\u{2003}' && all[13] == '\u{2004}' && all[14] == '\u{2005}'
        && all[15] == '\u{2006}' && all[16] == '\u{2007}' && all[17] == '\u{2008}' && all[18]
        == '\u{2009}' && all[19] == '\u{200a}' && all[20] == '\u{2028}' && all[21] == '\u{2029}'
        && all[22] == '\u{202f}' && all[23] == '\u{205f}' && all[24] == '\u{3000}');
    if is_white_space(c) {
        let u = c as u32;
        if u <= 0xd {
            assert(c == all[u - 9]);
        } else if 0x2000 <= u <= 0x200a {
            assert(c == all[u - 0x2000 + 9]);
        }
    }
}

/// Texts that are the same but for the case of their letters: the relation holds of a text and
/// itself, both ways and across a third text, and changing the case of letters keeps it.
pub proof fn law_case_is_ignored(a: Seq<char>, b: Seq<char>, c: Seq<char>)
    ensures
        same_ignoring_case(a, a),
        same_ignoring_case(a, b) ==> same_ignoring_case(b, a),
        same_ignoring_case(a, b) && same_ignoring_case(b, c) ==> same_ignoring_case(a, c),
        same_ignoring_case(a, a.map_values(|x: char| ascii_lower(x))),
        same_ignoring_case(a, a.map_values(|x: char| ascii_upper(x))),
        forall|x: char|
            ('A' <= x <= 'Z') ==> #[trigger] ascii_upper(ascii_lower(x)) == x && ascii_lower(x) != x
                && ascii_lower(ascii_lower(x)) == ascii_lower(x),
        forall|x: char| !('A' <= x <= 'Z') ==> #[trigger] ascii_lower(x) == x,
        forall|x: char| !('a' <= x <= 'z') ==> #[trigger] ascii_upper(x) == x,
        forall|x: char| ('a' <= x <= 'z') ==> ascii_lower(#[trigger] ascii_upper(x)) == x,
{
    assert forall|x: char| ('a' <= x <= 'z') implies ascii_lower(#[trigger] ascii_upper(x)) == x by {
        let u = ascii_upper(x);
        assert(u as u32 == x as u32 - 32);
        assert('A' <= u <= 'Z');
    }
    assert forall|x: char| ('A' <= x <= 'Z') implies #[trigger] ascii_upper(ascii_lower(x)) == x
        && ascii_lower(x) != x && ascii_lower(ascii_lower(x)) == ascii_lower(x) by {
        let u = ascii_lower(x);
        assert(u as u32 == x as u32 + 32);
        assert('a' <= u <= 'z');
    }
    assert forall|i: int| 0 <= i < a.len() implies ascii_lower(#[trigger] a[i]) == ascii_lower(
        a.map_values(|x: char| ascii_upper(x))[i],
    ) by {
        let x = a[i];
        if 'a' <= x <= 'z' {
            assert(ascii_lower(ascii_upper(x)) == x);
        }
    }
    assert forall|i: int| 0 <= i < a.len() implies ascii_lower(#[trigger] a[i]) == ascii_lower(
        a.map_values(|x: char| ascii_lower(x))[i],
    ) by {
        let x = a[i];
        if 'A' <= x <= 'Z' {
            assert(ascii_upper(ascii_lower(x)) == x);
        }
    }
}

} // verus!
