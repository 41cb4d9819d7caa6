//! Formatting of numbers by a picture.
//!
//! A picture is made of `9` and `0` for digits, `G` or `,` for a group separator, `D` or `.` for the
//! decimal point, `$` at its start, and `S` at its end or `MI` for a sign. Other characters are
//! ignored.

use vstd::arithmetic::power::pow;
use vstd::prelude::*;

use crate::text;
use crate::text::{
    decimal, is_digit, is_white_space, lemma_decimal_denotes, number, trim_start_of, uppercase, zeros,
};

verus! {

/// A picture.
#[derive(Debug)]
pub struct NumberFormat {
    pub has_dollar: bool,
    /// For each digit before the decimal point, whether it is shown where it is a leading zero.
    pub int_zeros: Vec<bool>,
    /// The number of digits before each group separator.
    pub groups: Vec<usize>,
    pub has_decimal_point: bool,
    /// The number of digits after the decimal point.
    pub decimals: usize,
    pub trailing_sign: bool,
}

/// A picture.
#[verifier::ext_equal]
pub struct FormatModel {
    pub has_dollar: bool,
    pub int_zeros: Seq<bool>,
    pub groups: Seq<usize>,
    pub has_decimal_point: bool,
    pub decimals: nat,
    pub trailing_sign: bool,
}

impl View for NumberFormat {
    type V = FormatModel;

    open spec fn view(&self) -> FormatModel {
        FormatModel {
            has_dollar: self.has_dollar,
            int_zeros: self.int_zeros@,
            groups: self.groups@,
            has_decimal_point: self.has_decimal_point,
            decimals: self.decimals as nat,
            trailing_sign: self.trailing_sign,
        }
    }
}

/// The picture of nothing.
pub open spec fn empty_format() -> FormatModel {
    FormatModel {
        has_dollar: false,
        int_zeros: Seq::empty(),
        groups: Seq::empty(),
        has_decimal_point: false,
        decimals: 0,
        trailing_sign: false,
    }
}

/// The number of characters that an element takes at a position.
pub open spec fn element_len(chars: Seq<char>, i: int) -> int {
    if chars[i] == 'M' && i + 1 < chars.len() && chars[i + 1] == 'I' {
        2
    } else {
        1
    }
}

/// A picture with the element at a position.
pub open spec fn with_element(chars: Seq<char>, i: int, f: FormatModel) -> FormatModel {
    let c = chars[i];
    if c == '$' && (i == 0 || (i == 1 && !f.has_decimal_point)) {
        FormatModel { has_dollar: true, ..f }
    } else if c == '9' || c == '0' {
        if f.has_decimal_point {
            FormatModel { decimals: f.decimals + 1, ..f }
        } else {
            FormatModel { int_zeros: f.int_zeros.push(c == '0'), ..f }
        }
    } else if (c == 'G' || c == ',') && !f.has_decimal_point {
        FormatModel { groups: f.groups.push(f.int_zeros.len() as usize), ..f }
    } else if (c == 'D' || c == '.') && !f.has_decimal_point {
        FormatModel { has_decimal_point: true, ..f }
    } else if (c == 'S' && i == chars.len() - 1) || element_len(chars, i) == 2 {
        FormatModel { trailing_sign: true, ..f }
    } else {
        f
    }
}

/// A picture with the elements from a position on.
pub open spec fn with_elements(chars: Seq<char>, i: int, f: FormatModel) -> FormatModel
    decreases chars.len() - i,
{
    if 0 <= i < chars.len() {
        with_elements(chars, i + element_len(chars, i), with_element(chars, i, f))
    } else {
        f
    }
}

/// The picture of a text, whatever its case.
pub open spec fn parsed_format(fmt: Seq<char>) -> FormatModel {
    with_elements(uppercase(fmt), 0, empty_format())
}

/// Whether the separators of a picture stand among its digits.
pub open spec fn separators_in_range(f: FormatModel) -> bool {
    forall|g: int| 0 <= g < f.groups.len() ==> (#[trigger] f.groups[g]) <= f.int_zeros.len()
}

/// Reads a picture. Its separators stand among its digits.
pub fn parse_format(fmt: &str) -> (format: NumberFormat)
    ensures
        format@ == parsed_format(fmt@),
        separators_in_range(format@),
{
    let upper = text::to_uppercase(fmt);
    parse_upper(upper.as_str())
}

/// Reads a picture that is in upper case.
pub fn parse_upper(fmt: &str) -> (format: NumberFormat)
    ensures
        format@ == with_elements(fmt@, 0, empty_format()),
        separators_in_range(format@),
{
    let chars = text::to_chars(fmt);
    let mut format = NumberFormat {
        has_dollar: false,
        int_zeros: Vec::new(),
        groups: Vec::new(),
        has_decimal_point: false,
        decimals: 0,
        trailing_sign: false,
    };
    let mut i: usize = 0;
    assert(format@ =~= empty_format());
    while i < chars.len()
        invariant
            chars@ == fmt@,
            i <= chars@.len(),
            format.decimals <= i,
            separators_in_range(format@),
            with_elements(fmt@, i as int, format@) == with_elements(fmt@, 0, empty_format()),
        decreases chars@.len() - i,
    {
        let ghost before = format@;
        let c = chars[i];
        let pair = c == 'M' && i + 1 < chars.len() && chars[i + 1] == 'I';
        let digit = c == '9' || c == '0';
        let group = c == 'G' || c == ',';
        let point = c == 'D' || c == '.';
        if c == '$' && (i == 0 || (i == 1 && !format.has_decimal_point)) {
            format.has_dollar = true;
        } else if digit {
            if format.has_decimal_point {
                format.decimals = format.decimals + 1;
            } else {
                format.int_zeros.push(c == '0');
            }
        } else if group && !format.has_decimal_point {
            let n: usize = format.int_zeros.len();
            format.groups.push(n);
        } else if point && !format.has_decimal_point {
            format.has_decimal_point = true;
        } else if (c == 'S' && i == chars.len() - 1) || pair {
            format.trailing_sign = true;
        }
        proof {
            let after = format@;
            assert(after =~= with_element(fmt@, i as int, before));
            assert forall|g: int| 0 <= g < after.groups.len() implies (#[trigger] after.groups[g])
                <= after.int_zeros.len() by {
                if g < before.groups.len() {
                    assert(after.groups[g] == before.groups[g]);
                }
            }
        }
        if pair {
            i = i + 2;
        } else {
            i = i + 1;
        }
    }
    format
}

/// A power of ten.
pub open spec fn power_of_ten(n: nat) -> nat
    decreases n,
{
    if n == 0 {
        1
    } else {
        10 * power_of_ten((n - 1) as nat)
    }
}

impl NumberFormat {
    /// The number by which a value is multiplied so that it is rounded to the picture's decimals;
    /// none where it exceeds the machine's limits.
    pub fn factor(&self) -> (factor: Option<u64>)
        ensures
            match factor {
                Some(f) => f == power_of_ten(self.decimals as nat),
                None => power_of_ten(self.decimals as nat) > u64::MAX,
            },
    {
        let mut factor: u64 = 1;
        let mut i: usize = 0;
        while i < self.decimals
            invariant
                i <= self.decimals,
                factor == power_of_ten(i as nat),
            decreases self.decimals - i,
        {
            assert(power_of_ten((i + 1) as nat) == 10 * power_of_ten(i as nat));
            if factor > 1844674407370955161 {
                proof {
                    lemma_power_grows((i + 1) as nat, self.decimals as nat);
                }
                return None;
            }
            factor = factor * 10;
            i = i + 1;
        }
        Some(factor)
    }
}

proof fn lemma_power_grows(m: nat, n: nat)
    requires
        m <= n,
    ensures
        power_of_ten(m) <= power_of_ten(n),
    decreases n,
{
    if m < n {
        lemma_power_grows(m, (n - 1) as nat);
    }
}

/// A text with zeros before it, up to a length.
pub open spec fn zero_padded(s: Seq<char>, width: nat) -> Seq<char> {
    if s.len() >= width {
        s
    } else {
        zeros((width - s.len()) as nat) + s
    }
}

/// The digits before the decimal point: leading zeros are shown or blank as the picture says.
pub open spec fn int_digits(f: FormatModel, units: nat) -> Seq<char> {
    let digits = decimal(units);
    Seq::new(
        (f.int_zeros.len() - digits.len()) as nat,
        |i: int|
            if f.int_zeros[i] {
                '0'
            } else {
                ' '
            },
    ) + digits
}

/// Whether a group separator stands before the last `right` digits.
pub open spec fn is_group_end(f: FormatModel, right: int) -> bool {
    right > 0 && exists|g: int|
        0 <= g < f.groups.len() && f.int_zeros.len() - #[trigger] f.groups[g] == right
}

/// The first `n` digits with group separators.
pub open spec fn grouped(f: FormatModel, digits: Seq<char>, n: nat) -> Seq<char>
    decreases n,
{
    if n == 0 {
        Seq::empty()
    } else {
        let before = grouped(f, digits, (n - 1) as nat).push(digits[n - 1]);
        if is_group_end(f, f.int_zeros.len() - n) {
            before.push(',')
        } else {
            before
        }
    }
}

/// A number by a picture: `units` before the decimal point and `part` after it. There is none where
/// the picture has too few digits.
pub open spec fn rendered(f: FormatModel, units: nat, part: nat, negative: bool) -> Option<Seq<char>> {
    if decimal(units).len() > f.int_zeros.len() {
        None
    } else {
        let dollar = if f.has_dollar {
            seq!['$']
        } else {
            Seq::<char>::empty()
        };
        let digits = grouped(f, int_digits(f, units), f.int_zeros.len());
        let fraction = if f.has_decimal_point {
            seq!['.'] + if f.decimals > 0 {
                zero_padded(decimal(part), f.decimals)
            } else {
                Seq::<char>::empty()
            }
        } else {
            Seq::<char>::empty()
        };
        let sign = if f.trailing_sign {
            seq![if negative { '-' } else { '+' }]
        } else {
            Seq::<char>::empty()
        };
        Some(trim_start_of(dollar + digits + fraction + sign))
    }
}

fn is_separated(format: &NumberFormat, right: usize) -> (found: bool)
    requires
        separators_in_range(format@),
    ensures
        found == is_group_end(format@, right as int),
{
    if right == 0 {
        return false;
    }
    let n: usize = format.int_zeros.len();
    let mut g: usize = 0;
    while g < format.groups.len()
        invariant
            g <= format.groups@.len(),
            n == format.int_zeros@.len(),
            right > 0,
            separators_in_range(format@),
            forall|k: int| 0 <= k < g ==> n - (#[trigger] format.groups@[k]) != right,
        decreases format.groups@.len() - g,
    {
        assert(format@.groups[g as int] <= format@.int_zeros.len());
        if n - format.groups[g] == right {
            assert(format@.int_zeros.len() - format@.groups[g as int] == right);
            return true;
        }
        g = g + 1;
    }
    false
}

/// Shows a number by a picture. `total` is the value without its sign, multiplied by the picture's
/// factor and rounded.
#[verifier::rlimit(40)]
pub fn render(format: &NumberFormat, factor: u64, total: u64, negative: bool) -> (out: Option<
    String,
>)
    requires
        factor == power_of_ten(format.decimals as nat),
        separators_in_range(format@),
    ensures
        match out {
            Some(s) => rendered(
                format@,
                (total / factor) as nat,
                (total % factor) as nat,
                negative,
            ) == Some(s@),
            None => rendered(
                format@,
                (total / factor) as nat,
                (total % factor) as nat,
                negative,
            ) is None,
        },
{
    proof {
        lemma_power_grows(0, format.decimals as nat);
    }
    let units: u64 = total / factor;
    let part: u64 = total % factor;
    let int_text = text::u64_to_text(units);
    let int_chars = text::to_chars(int_text.as_str());
    let n: usize = format.int_zeros.len();
    if int_chars.len() > n {
        return None;
    }
    let pad: usize = n - int_chars.len();
    let ghost digits = int_digits(format@, units as nat);
    let mut out = "".to_owned();
    proof {
        reveal_strlit("");
        assert(out@ =~= Seq::<char>::empty());
    }
    if format.has_dollar {
        out.push('$');
    }
    let ghost start = out@;
    let mut i: usize = 0;
    assert(start + grouped(format@, digits, 0) =~= start);
    while i < n
        invariant
            i <= n,
            n == format.int_zeros@.len(),
            pad == n - int_chars@.len(),
            int_chars@.len() <= n,
            int_chars@ == decimal(units as nat),
            digits == int_digits(format@, units as nat),
            separators_in_range(format@),
            out@ == start + grouped(format@, digits, i as nat),
        decreases n - i,
    {
        let c = if i < pad {
            if format.int_zeros[i] {
                '0'
            } else {
                ' '
            }
        } else {
            int_chars[i - pad]
        };
        assert(c == digits[i as int]);
        out.push(c);
        if is_separated(format, n - i - 1) {
            out.push(',');
        }
        assert(out@ =~= start + grouped(format@, digits, (i + 1) as nat));
        i = i + 1;
    }
    let ghost whole = out@;
    if format.has_decimal_point {
        out.push('.');
        if format.decimals > 0 {
            let part_text = text::u64_to_text(part);
            let part_chars = text::to_chars(part_text.as_str());
            let ghost point = out@;
            let mut k: usize = part_chars.len();
            let ghost mut m: nat = 0;
            assert(point + zeros(0) =~= point);
            while k < format.decimals
                invariant
                    part_chars@.len() <= k,
                    m == k - part_chars@.len(),
                    k <= format.decimals || m == 0,
                    out@ == point + zeros(m),
                decreases format.decimals - k,
            {
                out.push('0');
                proof {
                    assert(point + zeros(m + 1) =~= (point + zeros(m)).push('0'));
                    m = m + 1;
                }
                k = k + 1;
            }
            out.append(part_text.as_str());
            assert(out@ =~= point + zero_padded(decimal(part as nat), format.decimals as nat));
        }
    }
    let ghost shown = out@;
    if format.trailing_sign {
        if negative {
            out.push('-');
        } else {
            out.push('+');
        }
    }
    proof {
        let f = format@;
        let dollar = if f.has_dollar {
            seq!['$']
        } else {
            Seq::<char>::empty()
        };
        let fraction = if f.has_decimal_point {
            seq!['.'] + if f.decimals > 0 {
                zero_padded(decimal(part as nat), f.decimals)
            } else {
                Seq::<char>::empty()
            }
        } else {
            Seq::<char>::empty()
        };
        let sign = if f.trailing_sign {
            seq![if negative { '-' } else { '+' }]
        } else {
            Seq::<char>::empty()
        };
        assert(start =~= dollar);
        assert(shown =~= whole + fraction);
        assert(out@ =~= dollar + grouped(f, digits, f.int_zeros.len()) + fraction + sign);
    }
    Some(text::trim_start(out.as_str()))
}

/// The digits of a text.
pub open spec fn digits_in(s: Seq<char>) -> Seq<char> {
    s.filter(|c: char| is_digit(c))
}

/// The characters of a text but for group separators.
pub open spec fn without_separators(s: Seq<char>) -> Seq<char> {
    s.filter(|c: char| c != ',')
}

proof fn lemma_pow(n: nat)
    ensures
        power_of_ten(n) == pow(10, n),
        power_of_ten(n) > 0,
    decreases n,
{
    reveal(pow);
    if n > 0 {
        lemma_pow((n - 1) as nat);
    }
}

/// The factor of a picture is ten to the power of its decimals.
pub proof fn law_factor_is_a_power_of_ten(n: nat)
    ensures
        power_of_ten(n) == pow(10, n),
{
    lemma_pow(n);
}

proof fn lemma_number_append(a: Seq<char>, b: Seq<char>)
    ensures
        number(a + b) == number(a) * pow(10, b.len()) + number(b),
    decreases b.len(),
{
    reveal(pow);
    if b.len() == 0 {
        assert(a + b =~= a);
    } else {
        lemma_number_append(a, b.drop_last());
        assert((a + b).drop_last() =~= a + b.drop_last());
        assert((a + b).last() == b.last());
        let p = pow(10, (b.len() - 1) as nat);
        assert(pow(10, b.len()) == 10 * p);
        assert((number(a) * p + number(b.drop_last())) * 10 == number(a) * (10 * p) + number(
            b.drop_last(),
        ) * 10) by (nonlinear_arith);
    }
}

proof fn lemma_number_of_zeros(n: nat)
    ensures
        number(zeros(n)) == 0,
    decreases n,
{
    if n > 0 {
        assert(zeros(n).drop_last() =~= zeros((n - 1) as nat));
        assert(zeros(n).last() == '0');
        lemma_number_of_zeros((n - 1) as nat);
    }
}

proof fn lemma_decimal_len(n: nat, width: nat)
    requires
        width > 0,
    ensures
        decimal(n).len() <= width <==> n < pow(10, width),
        decimal(n).len() > 0,
    decreases n,
{
    reveal(pow);
    reveal_with_fuel(pow, 2);
    let p = pow(10, (width - 1) as nat);
    lemma_pow((width - 1) as nat);
    assert(pow(10, width) == 10 * p);
    if n >= 10 {
        if width > 1 {
            lemma_decimal_len(n / 10, (width - 1) as nat);
            assert(n / 10 < p <==> n < 10 * p) by (nonlinear_arith)
                requires
                    p > 0,
            ;
        } else {
            lemma_decimal_len(n / 10, 1);
            assert(p == 1);
        }
    }
}

proof fn lemma_filter_all<A>(s: Seq<A>, p: spec_fn(A) -> bool)
    requires
        forall|i: int| 0 <= i < s.len() ==> p(#[trigger] s[i]),
    ensures
        s.filter(p) == s,
    decreases s.len(),
{
    reveal(Seq::filter);
    if s.len() > 0 {
        assert forall|i: int| 0 <= i < s.drop_last().len() implies p(
            #[trigger] s.drop_last()[i],
        ) by {
            assert(p(s[i]));
        }
        lemma_filter_all(s.drop_last(), p);
        assert(p(s[s.len() - 1]));
        assert(s.drop_last().push(s.last()) =~= s);
    }
}

proof fn lemma_filter_none<A>(s: Seq<A>, p: spec_fn(A) -> bool)
    requires
        forall|i: int| 0 <= i < s.len() ==> !p(#[trigger] s[i]),
    ensures
        s.filter(p) == Seq::<A>::empty(),
    decreases s.len(),
{
    reveal(Seq::filter);
    if s.len() > 0 {
        assert forall|i: int| 0 <= i < s.drop_last().len() implies !p(
            #[trigger] s.drop_last()[i],
        ) by {
            assert(!p(s[i]));
        }
        lemma_filter_none(s.drop_last(), p);
        assert(!p(s[s.len() - 1]));
    }
}

/// Leading white space that is removed: none of it is a digit, a separator, a point or a sign.
proof fn lemma_trimmed(s: Seq<char>) -> (cut: int)
    ensures
        0 <= cut <= s.len(),
        trim_start_of(s) == s.skip(cut),
        forall|i: int| 0 <= i < cut ==> is_white_space(#[trigger] s[i]),
        cut < s.len() ==> !is_white_space(s[cut]),
    decreases s.len(),
{
    if s.len() > 0 && is_white_space(s[0]) {
        let cut = lemma_trimmed(s.skip(1));
        assert(s.skip(1).skip(cut) =~= s.skip(cut + 1));
        assert forall|i: int| 0 <= i < cut + 1 implies is_white_space(#[trigger] s[i]) by {
            if i > 0 {
                assert(s.skip(1)[i - 1] == s[i]);
            }
        }
        if cut + 1 < s.len() {
            assert(s.skip(1)[cut] == s[cut + 1]);
        }
        cut + 1
    } else {
        assert(s.skip(0) =~= s);
        0
    }
}

proof fn lemma_grouped(f: FormatModel, digits: Seq<char>, n: nat)
    requires
        n <= digits.len(),
        forall|i: int| 0 <= i < digits.len() ==> #[trigger] digits[i] != ',' && digits[i] != '.',
    ensures
        without_separators(grouped(f, digits, n)) == digits.take(n as int),
        digits_in(grouped(f, digits, n)) == digits_in(digits.take(n as int)),
        forall|i: int|
            0 <= i < grouped(f, digits, n).len() ==> #[trigger] grouped(f, digits, n)[i] != '.',
        forall|y: int|
            0 <= y < grouped(f, digits, n).len() && #[trigger] grouped(f, digits, n)[y] == ','
                ==> is_group_end(
                f,
                f.int_zeros.len() - without_separators(grouped(f, digits, n).take(y)).len(),
            ) && without_separators(grouped(f, digits, n).take(y)).len() > 0,
        forall|c: int|
            0 < c <= n && #[trigger] is_group_end(f, f.int_zeros.len() - c) ==> exists|y: int|
                0 <= y < grouped(f, digits, n).len() && #[trigger] grouped(f, digits, n)[y] == ','
                    && without_separators(grouped(f, digits, n).take(y)).len() == c,
    decreases n,
{
    reveal(Seq::filter);
    let all = grouped(f, digits, n);
    if n == 0 {
        assert(digits.take(0) =~= Seq::<char>::empty());
    } else {
        let m = (n - 1) as nat;
        let before = grouped(f, digits, m);
        let with_digit = before.push(digits[n - 1]);
        lemma_grouped(f, digits, m);
        assert(digits.take(n as int).drop_last() =~= digits.take(m as int));
        assert(digits.take(n as int) =~= digits.take(m as int).push(digits[n - 1]));
        assert(with_digit.drop_last() =~= before);
        assert(without_separators(with_digit) =~= digits.take(n as int));
        assert(digits_in(with_digit) == digits_in(digits.take(n as int)));
        let end = is_group_end(f, f.int_zeros.len() - n);
        if end {
            assert(all.drop_last() =~= with_digit);
        }
        assert forall|y: int| 0 <= y <= before.len() implies #[trigger] all.take(y)
            =~= before.take(y) by {}
        assert(all.take(before.len() as int) =~= before);
        assert forall|y: int| 0 <= y < all.len() && #[trigger] all[y] == ',' implies is_group_end(
            f,
            f.int_zeros.len() - without_separators(all.take(y)).len(),
        ) && without_separators(all.take(y)).len() > 0 by {
            if y < before.len() {
                assert(before[y] == ',');
                assert(all.take(y) =~= before.take(y));
            } else {
                assert(y == before.len() + 1);
                assert(all.take(y) =~= with_digit);
            }
        }
        assert forall|c: int|
            0 < c <= n && #[trigger] is_group_end(f, f.int_zeros.len() - c) implies exists|y: int|
            0 <= y < all.len() && #[trigger] all[y] == ',' && without_separators(
                all.take(y),
            ).len() == c by {
            if c <= m {
                let y = choose|y: int|
                    0 <= y < before.len() && #[trigger] before[y] == ',' && without_separators(
                        before.take(y),
                    ).len() == c;
                assert(all[y] == ',');
                assert(all.take(y) =~= before.take(y));
            } else {
                let y = before.len() as int + 1;
                assert(all[y] == ',');
                assert(all.take(y) =~= with_digit);
            }
        }
    }
}

/// The parts of a rendered number: what stands before the decimal point, what stands behind it, and
/// the sign.
pub open spec fn whole_part(f: FormatModel, s: Seq<char>) -> Seq<char> {
    s.take(s.len() - sign_len(f) - fraction_len(f))
}

/// The characters behind the decimal point.
pub open spec fn fraction_part(f: FormatModel, s: Seq<char>) -> Seq<char> {
    s.subrange(s.len() - sign_len(f) - f.decimals, s.len() - sign_len(f))
}

/// The number of characters of the sign.
pub open spec fn sign_len(f: FormatModel) -> int {
    if f.trailing_sign {
        1
    } else {
        0
    }
}

/// The number of characters from the decimal point on.
pub open spec fn fraction_len(f: FormatModel) -> int {
    if f.has_decimal_point {
        f.decimals as int + 1
    } else {
        0
    }
}

/// The digits behind the point, filled up with zeros in front.
proof fn lemma_padded(part: nat, decimals: nat)
    requires
        decimals > 0,
        part < pow(10, decimals),
    ensures
        zero_padded(decimal(part), decimals).len() == decimals,
        forall|i: int|
            0 <= i < decimals ==> is_digit(#[trigger] zero_padded(decimal(part), decimals)[i]),
        number(zero_padded(decimal(part), decimals)) == part,
{
    let padded = zero_padded(decimal(part), decimals);
    let fill = (decimals - decimal(part).len()) as nat;
    lemma_decimal_denotes(part);
    lemma_decimal_len(part, decimals);
    if decimal(part).len() < decimals {
        assert(padded =~= zeros(fill) + decimal(part));
        lemma_number_append(zeros(fill), decimal(part));
        lemma_number_of_zeros(fill);
        let p = pow(10, decimal(part).len());
        assert(number(zeros(fill)) * p == 0) by (nonlinear_arith)
            requires
                number(zeros(fill)) == 0,
        ;
    } else {
        assert(padded =~= decimal(part));
    }
    assert forall|i: int| 0 <= i < decimals implies is_digit(#[trigger] padded[i]) by {
        if i >= fill {
            assert(padded[i] == decimal(part)[i - fill]);
        } else {
            assert(padded[i] == '0');
        }
    }
}

/// The digits before the point read as the whole part.
proof fn lemma_whole(f: FormatModel, units: nat)
    requires
        decimal(units).len() <= f.int_zeros.len(),
    ensures
        ({
            let whole = grouped(f, int_digits(f, units), f.int_zeros.len());
            &&& number(digits_in(whole)) == units
            &&& digits_in(whole).len() > 0
            &&& forall|i: int| 0 <= i < whole.len() ==> #[trigger] whole[i] != '.'
        }),
{
    let digits = int_digits(f, units);
    let whole = grouped(f, digits, f.int_zeros.len());
    let blank = (f.int_zeros.len() - decimal(units).len()) as nat;
    let lead = digits.take(blank as int);
    let p = |c: char| is_digit(c);
    lemma_decimal_denotes(units);
    lemma_decimal_len(units, 1);
    assert(digits =~= lead + decimal(units));
    assert forall|i: int| 0 <= i < digits.len() implies #[trigger] digits[i] != ',' && digits[i]
        != '.' by {
        if i >= blank {
            assert(digits[i] == decimal(units)[i - blank]);
        }
    }
    lemma_grouped(f, digits, f.int_zeros.len());
    assert(digits.take(f.int_zeros.len() as int) =~= digits);
    Seq::filter_distributes_over_add(lead, decimal(units), p);
    assert forall|i: int| 0 <= i < decimal(units).len() implies p(#[trigger] decimal(units)[i]) by {
        assert(is_digit(decimal(units)[i]));
    }
    lemma_filter_all(decimal(units), p);
    lemma_lead(lead);
    lemma_number_append(lead.filter(p), decimal(units));
    assert(digits_in(whole) == lead.filter(p) + decimal(units));
    let t = pow(10, decimal(units).len());
    assert(number(lead.filter(p)) * t == 0) by (nonlinear_arith)
        requires
            number(lead.filter(p)) == 0,
    ;
}

/// What removing leading white space leaves of a text that starts with `front`, which holds a digit.
proof fn lemma_cut(front: Seq<char>, rest: Seq<char>) -> (cut: int)
    requires
        digits_in(front).len() > 0,
    ensures
        0 <= cut <= front.len(),
        trim_start_of(front + rest) == front.skip(cut) + rest,
        digits_in(front.skip(cut)) == digits_in(front),
        front.len() > 0 && !is_white_space(front[0]) ==> cut == 0,
{
    let full = front + rest;
    let p = |c: char| is_digit(c);
    let cut = lemma_trimmed(full);
    if cut > front.len() {
        assert(full.take(front.len() as int) =~= front);
        lemma_blank(full, front, cut);
        lemma_filter_none(front, p);
    }
    assert(full.skip(cut) =~= front.skip(cut) + rest);
    assert forall|i: int| 0 <= i < cut implies !p(#[trigger] front.take(cut)[i]) by {
        assert(full[i] == front[i]);
        assert(is_white_space(full[i]));
    }
    lemma_filter_none(front.take(cut), p);
    assert(front.take(cut) + front.skip(cut) =~= front);
    Seq::filter_distributes_over_add(front.take(cut), front.skip(cut), p);
    assert(digits_in(front) =~= digits_in(front.skip(cut)));
    if front.len() > 0 && !is_white_space(front[0]) {
        assert(full[0] == front[0]);
    }
    cut
}

proof fn lemma_no_digits(c: char)
    requires
        !is_digit(c),
    ensures
        digits_in(seq![c]) == Seq::<char>::empty(),
{
    let one = seq![c];
    assert forall|i: int| 0 <= i < one.len() implies !(|c: char| is_digit(c))(
        #[trigger] one[i],
    ) by {}
    lemma_filter_none(one, |c: char| is_digit(c));
}

proof fn lemma_digits_add(a: Seq<char>, b: Seq<char>)
    ensures
        digits_in(a + b) == digits_in(a) + digits_in(b),
{
    Seq::filter_distributes_over_add(a, b, |c: char| is_digit(c));
}

/// The fraction of a rendered number, from its point on, and the sign.
proof fn lemma_tail(f: FormatModel, part: nat, negative: bool, fraction: Seq<char>, sign: Seq<char>)
    requires
        f.decimals > 0 ==> f.has_decimal_point,
        part < pow(10, f.decimals),
        fraction == if f.has_decimal_point {
            seq!['.'] + if f.decimals > 0 {
                zero_padded(decimal(part), f.decimals)
            } else {
                Seq::<char>::empty()
            }
        } else {
            Seq::<char>::empty()
        },
        sign == if f.trailing_sign {
            seq![
                if negative {
                    '-'
                } else {
                    '+'
                },
            ]
        } else {
            Seq::<char>::empty()
        },
    ensures
        fraction.len() == fraction_len(f),
        sign.len() == sign_len(f),
        f.has_decimal_point ==> fraction[0] == '.',
        f.has_decimal_point ==> fraction.skip(1).len() == f.decimals && number(fraction.skip(1))
            == part && digits_in(fraction) == fraction.skip(1),
        f.has_decimal_point ==> forall|i: int|
            0 <= i < f.decimals ==> is_digit(#[trigger] fraction.skip(1)[i]),
        !f.has_decimal_point ==> part == 0 && digits_in(fraction) == Seq::<char>::empty(),
        digits_in(sign) == Seq::<char>::empty(),
{
    let p = |c: char| is_digit(c);
    lemma_no_digits('.');
    lemma_no_digits('-');
    lemma_no_digits('+');
    lemma_filter_none(Seq::<char>::empty(), p);
    if f.decimals > 0 {
        let padded = zero_padded(decimal(part), f.decimals);
        lemma_padded(part, f.decimals);
        assert(fraction.skip(1) =~= padded);
        assert forall|i: int| 0 <= i < padded.len() implies p(#[trigger] padded[i]) by {
            assert(is_digit(padded[i]));
        }
        lemma_filter_all(padded, p);
        lemma_digits_add(seq!['.'], padded);
        assert(digits_in(fraction) =~= padded);
    } else {
        reveal(pow);
        assert(part == 0);
        if f.has_decimal_point {
            assert(fraction =~= seq!['.']);
            assert(fraction.skip(1) =~= Seq::<char>::empty());
        }
    }
}

/// The fraction of a number from its point on.
spec fn fraction_of(f: FormatModel, part: nat) -> Seq<char> {
    if f.has_decimal_point {
        seq!['.'] + if f.decimals > 0 {
            zero_padded(decimal(part), f.decimals)
        } else {
            Seq::<char>::empty()
        }
    } else {
        Seq::<char>::empty()
    }
}

spec fn sign_of(f: FormatModel, negative: bool) -> Seq<char> {
    if f.trailing_sign {
        seq![
            if negative {
                '-'
            } else {
                '+'
            },
        ]
    } else {
        Seq::<char>::empty()
    }
}

/// A rendered number is a head, which has the digits of the whole part, and the fraction and sign.
#[verifier::rlimit(40)]
proof fn lemma_head(f: FormatModel, units: nat, part: nat, negative: bool, s: Seq<char>) -> (head:
    Seq<char>)
    requires
        rendered(f, units, part, negative) == Some(s),
    ensures
        s == head + (fraction_of(f, part) + sign_of(f, negative)),
        number(digits_in(head)) == units,
        forall|i: int| 0 <= i < head.len() ==> #[trigger] head[i] != '.',
        f.has_dollar ==> head.len() > 0 && head[0] == '$',
{
    let dollar = if f.has_dollar {
        seq!['$']
    } else {
        Seq::<char>::empty()
    };
    let whole = grouped(f, int_digits(f, units), f.int_zeros.len());
    let fraction = fraction_of(f, part);
    let sign = sign_of(f, negative);
    lemma_whole(f, units);
    let front = dollar + whole;
    assert(digits_in(dollar) == Seq::<char>::empty()) by {
        lemma_no_digits('$');
        lemma_filter_none(Seq::<char>::empty(), |c: char| is_digit(c));
    }
    lemma_digits_add(dollar, whole);
    assert(digits_in(front) =~= digits_in(whole));
    assert(dollar + whole + fraction + sign =~= front + (fraction + sign));
    let cut = lemma_cut(front, fraction + sign);
    let head = front.skip(cut);
    assert forall|i: int| 0 <= i < head.len() implies #[trigger] head[i] != '.' by {
        assert(head[i] == front[cut + i]);
        if cut + i >= dollar.len() {
            assert(front[cut + i] == whole[cut + i - dollar.len()]);
        }
    }
    if f.has_dollar {
        assert(front[0] == '$');
    }
    head
}

#[verifier::rlimit(40)]
proof fn lemma_rendered(f: FormatModel, units: nat, part: nat, negative: bool, s: Seq<char>)
    requires
        f.decimals > 0 ==> f.has_decimal_point,
        part < pow(10, f.decimals),
        rendered(f, units, part, negative) == Some(s),
    ensures
        s.len() >= sign_len(f) + fraction_len(f),
        number(digits_in(whole_part(f, s))) == units,
        f.has_decimal_point ==> digits_in(s) == digits_in(whole_part(f, s)) + fraction_part(f, s),
        !f.has_decimal_point ==> digits_in(s) == digits_in(whole_part(f, s)) && part == 0,
        f.has_decimal_point ==> {
            &&& fraction_part(f, s).len() == f.decimals
            &&& forall|i: int|
                0 <= i < f.decimals ==> is_digit(#[trigger] fraction_part(f, s)[i])
            &&& number(fraction_part(f, s)) == part
        },
        f.has_decimal_point ==> s[s.len() - sign_len(f) - fraction_len(f)] == '.',
        forall|i: int| 0 <= i < whole_part(f, s).len() ==> #[trigger] whole_part(f, s)[i] != '.',
        f.trailing_sign ==> s.last() == if negative {
            '-'
        } else {
            '+'
        },
        f.has_dollar ==> s[0] == '$',
{
    let fraction = fraction_of(f, part);
    let sign = sign_of(f, negative);
    let head = lemma_head(f, units, part, negative, s);
    lemma_tail(f, part, negative, fraction, sign);
    assert(whole_part(f, s) =~= head);
    lemma_digits_add(head, fraction + sign);
    lemma_digits_add(fraction, sign);
    if f.has_decimal_point {
        let tail = fraction.skip(1);
        assert(fraction_part(f, s) =~= tail);
        assert(s[head.len() as int] == fraction[0]);
        assert(digits_in(s) =~= digits_in(head) + tail);
    } else {
        assert(digits_in(s) =~= digits_in(head));
    }
    if f.has_dollar {
        assert(s[0] == head[0]);
    }
}

/// A rendered number shows the value: behind the decimal point, where the picture has one, there are
/// as many digits as the picture has decimals, which read as the part below one; the digits before it
/// read as the whole part, and all digits together as the total. The point stands once and at its
/// place, and the sign, where the picture has one, at the end.
pub proof fn law_rendered_number_reads_back(f: FormatModel, total: nat, negative: bool, s: Seq<char>)
    requires
        f.decimals > 0 ==> f.has_decimal_point,
        rendered(
            f,
            total / power_of_ten(f.decimals),
            total % power_of_ten(f.decimals),
            negative,
        ) == Some(s),
    ensures
        s.len() >= sign_len(f) + fraction_len(f),
        number(digits_in(whole_part(f, s))) == total as int / pow(10, f.decimals),
        number(digits_in(s)) == total,
        f.has_decimal_point ==> {
            &&& fraction_part(f, s).len() == f.decimals
            &&& forall|i: int|
                0 <= i < f.decimals ==> is_digit(#[trigger] fraction_part(f, s)[i])
            &&& number(fraction_part(f, s)) == total as int % pow(10, f.decimals)
        },
        f.has_decimal_point ==> s[s.len() - sign_len(f) - fraction_len(f)] == '.',
        forall|i: int| 0 <= i < whole_part(f, s).len() ==> #[trigger] whole_part(f, s)[i] != '.',
        f.trailing_sign ==> s.last() == if negative {
            '-'
        } else {
            '+'
        },
        f.has_dollar ==> s[0] == '$',
{
    let factor = power_of_ten(f.decimals);
    lemma_pow(f.decimals);
    let units = total / factor;
    let part = total % factor;
    vstd::arithmetic::div_mod::lemma_fundamental_div_mod(total as int, factor as int);
    vstd::arithmetic::div_mod::lemma_mod_bound(total as int, factor as int);
    lemma_rendered(f, units, part, negative, s);
    assert(units * factor == factor * units) by (nonlinear_arith);
    if f.has_decimal_point {
        lemma_number_append(digits_in(whole_part(f, s)), fraction_part(f, s));
    } else {
        vstd::arithmetic::power::lemma_pow0(10);
    }
}

proof fn lemma_blank(full: Seq<char>, front: Seq<char>, cut: int)
    requires
        front.len() <= cut <= full.len(),
        front.len() <= full.len(),
        full.take(front.len() as int) == front,
        forall|i: int| 0 <= i < cut ==> is_white_space(#[trigger] full[i]),
    ensures
        forall|i: int| 0 <= i < front.len() ==> !is_digit(#[trigger] front[i]),
{
    assert forall|i: int| 0 <= i < front.len() implies !is_digit(#[trigger] front[i]) by {
        assert(full.take(front.len() as int)[i] == full[i]);
    }
}

proof fn lemma_lead(lead: Seq<char>)
    requires
        forall|i: int| 0 <= i < lead.len() ==> #[trigger] lead[i] == '0' || lead[i] == ' ',
    ensures
        number(lead.filter(|c: char| is_digit(c))) == 0,
    decreases lead.len(),
{
    let p = |c: char| is_digit(c);
    reveal(Seq::filter);
    if lead.len() > 0 {
        let rest = lead.drop_last();
        assert forall|i: int| 0 <= i < rest.len() implies #[trigger] rest[i] == '0' || rest[i]
            == ' ' by {
            assert(lead[i] == '0' || lead[i] == ' ');
        }
        lemma_lead(rest);
        assert(lead[lead.len() - 1] == lead.last());
        if lead.last() == '0' {
            let all = lead.filter(p);
            assert(all.drop_last() =~= rest.filter(p));
            assert(all.last() == '0');
        }
    }
}

/// A number is shown exactly where the picture has a digit for each of its own before the decimal
/// point.
pub proof fn law_numbers_that_fit_are_shown(f: FormatModel, units: nat, part: nat, negative: bool)
    ensures
        rendered(f, units, part, negative) is Some <==> f.int_zeros.len() > 0 && units < pow(
            10,
            f.int_zeros.len(),
        ),
{
    if f.int_zeros.len() > 0 {
        lemma_decimal_len(units, f.int_zeros.len());
    } else {
        lemma_decimal_len(units, 1);
    }
}

/// Group separators stand where the picture has them: in the digits with separators there is one
/// behind `c` digits exactly where the picture has one with as many digits behind it as are left; and
/// without the separators they are the digits.
pub proof fn law_separators_stand_where_the_picture_has_them(f: FormatModel, units: nat)
    requires
        decimal(units).len() <= f.int_zeros.len(),
    ensures
        ({
            let n = f.int_zeros.len();
            let shown = grouped(f, int_digits(f, units), n);
            let digits = without_separators(shown);
            let blank = n - decimal(units).len();
            &&& digits.len() == n
            &&& forall|k: int|
                blank <= k < n ==> #[trigger] digits[k] == decimal(units)[k - blank]
            &&& forall|k: int|
                0 <= k < blank ==> #[trigger] digits[k] == if f.int_zeros[k] {
                    '0'
                } else {
                    ' '
                }
            &&& forall|y: int|
                0 <= y < shown.len() && #[trigger] shown[y] == ',' ==> exists|g: int|
                    0 <= g < f.groups.len() && #[trigger] f.groups[g] == without_separators(
                        shown.take(y),
                    ).len()
            &&& forall|g: int|
                0 <= g < f.groups.len() && 0 < #[trigger] f.groups[g] < n ==> exists|y: int|
                    0 <= y < shown.len() && #[trigger] shown[y] == ',' && without_separators(
                        shown.take(y),
                    ).len() == f.groups[g]
        }),
{
    let n = f.int_zeros.len();
    let digits = int_digits(f, units);
    let blank = n - decimal(units).len();
    lemma_decimal_denotes(units);
    assert forall|i: int| 0 <= i < digits.len() implies #[trigger] digits[i] != ',' && digits[i]
        != '.' by {
        if i >= blank {
            assert(digits[i] == decimal(units)[i - blank]);
        }
    }
    lemma_grouped(f, digits, n);
    assert(digits.take(n as int) =~= digits);
    let shown = grouped(f, digits, n);
    assert forall|y: int| 0 <= y < shown.len() && #[trigger] shown[y] == ',' implies exists|g: int|
        0 <= g < f.groups.len() && #[trigger] f.groups[g] == without_separators(
            shown.take(y),
        ).len() by {
        let right = n - without_separators(shown.take(y)).len();
        assert(is_group_end(f, right));
        let g = choose|g: int|
            0 <= g < f.groups.len() && f.int_zeros.len() - #[trigger] f.groups[g] == right;
        assert(f.groups[g] == without_separators(shown.take(y)).len());
    }
    assert forall|g: int| 0 <= g < f.groups.len() && 0 < #[trigger] f.groups[g] < n implies exists|
        y: int,
    | 0 <= y < shown.len() && #[trigger] shown[y] == ',' && without_separators(
        shown.take(y),
    ).len() == f.groups[g] by {
        let c = f.groups[g] as int;
        assert(f.int_zeros.len() - f.groups[g] == n - c);
        assert(is_group_end(f, n - c));
    }
}

proof fn lemma_elements(chars: Seq<char>, i: int, f: FormatModel)
    requires
        0 <= i,
    ensures
        ({
            let g = with_elements(chars, i, f);
            &&& f.has_decimal_point ==> g.has_decimal_point && g.int_zeros == f.int_zeros
                && g.groups == f.groups
            &&& g.int_zeros.len() + g.decimals == f.int_zeros.len() + f.decimals + (if i
                <= chars.len() {
                chars.skip(i).filter(|c: char| c == '9' || c == '0').len()
            } else {
                0
            })
            &&& g.decimals > f.decimals ==> g.has_decimal_point
            &&& g.has_decimal_point && !f.has_decimal_point ==> exists|k: int|
                i <= k < chars.len() && (#[trigger] chars[k] == '.' || chars[k] == 'D')
        }),
    decreases chars.len() - i,
{
    let p = |c: char| c == '9' || c == '0';
    if i < chars.len() {
        let step = element_len(chars, i);
        lemma_elements(chars, i + step, with_element(chars, i, f));
        lemma_skip_count(chars, i);
        if step == 2 {
            lemma_skip_count(chars, i + 1);
        }
    } else if i == chars.len() {
        reveal(Seq::filter);
        assert(chars.skip(i) =~= Seq::<char>::empty());
    }
}

proof fn lemma_skip_count(chars: Seq<char>, i: int)
    requires
        0 <= i < chars.len(),
    ensures
        ({
            let p = |c: char| c == '9' || c == '0';
            chars.skip(i).filter(p).len() == chars.skip(i + 1).filter(p).len() + if chars[i] == '9'
                || chars[i] == '0' {
                1int
            } else {
                0int
            }
        }),
{
    let p = |c: char| c == '9' || c == '0';
    let one = seq![chars[i]];
    assert(chars.skip(i) =~= one + chars.skip(i + 1));
    Seq::filter_distributes_over_add(one, chars.skip(i + 1), p);
    reveal_with_fuel(Seq::filter, 3);
    assert(one.drop_last() =~= Seq::<char>::empty());
    assert(one.last() == chars[i]);
}

/// A picture counts its digits: each `9` or `0` is a digit before the decimal point or behind it, and
/// digits stand behind it only where there is a point, which is a `.` or a `D` in the text.
pub proof fn law_pictures_count_their_digits(chars: Seq<char>)
    ensures
        ({
            let f = with_elements(chars, 0, empty_format());
            &&& f.int_zeros.len() + f.decimals == chars.filter(
                |c: char| c == '9' || c == '0',
            ).len()
            &&& f.decimals > 0 ==> f.has_decimal_point
            &&& f.has_decimal_point ==> exists|k: int|
                0 <= k < chars.len() && (#[trigger] chars[k] == '.' || chars[k] == 'D')
        }),
{
    lemma_elements(chars, 0, empty_format());
    assert(chars.skip(0) =~= chars);
}

proof fn lemma_elements_split(chars: Seq<char>, at: int, i: int, f: FormatModel)
    requires
        0 <= i <= at < chars.len(),
        chars[at] == '.' || chars[at] == 'D',
        forall|k: int| 0 <= k < at ==> #[trigger] chars[k] != '.' && chars[k] != 'D',
        !f.has_decimal_point,
        f.decimals == 0,
    ensures
        ({
            let g = with_elements(chars, i, f);
            let p = |c: char| c == '9' || c == '0';
            &&& g.has_decimal_point
            &&& g.int_zeros.len() == f.int_zeros.len() + chars.subrange(i, at).filter(p).len()
            &&& g.decimals == chars.skip(at + 1).filter(p).len()
        }),
    decreases at - i,
{
    let p = |c: char| c == '9' || c == '0';
    if i < at {
        let step = element_len(chars, i);
        let one = chars.subrange(i, i + step);
        lemma_elements_split(chars, at, i + step, with_element(chars, i, f));
        assert(chars.subrange(i, at) =~= one + chars.subrange(i + step, at));
        Seq::filter_distributes_over_add(one, chars.subrange(i + step, at), p);
        reveal_with_fuel(Seq::filter, 4);
        if step == 1 {
            assert(one.drop_last() =~= Seq::<char>::empty());
            assert(one.last() == chars[i]);
        } else {
            assert(one.drop_last().drop_last() =~= Seq::<char>::empty());
            assert(one.drop_last().last() == 'M');
            assert(one.last() == 'I');
            assert(!p('M') && !p('I'));
        }
    } else {
        reveal(Seq::filter);
        assert(chars.subrange(at, at) =~= Seq::<char>::empty());
        let after = with_element(chars, at, f);
        assert(after.has_decimal_point);
        lemma_elements(chars, at + 1, after);
    }
}

/// The digits before the first decimal point of a picture are those of its whole part, and the digits
/// behind it its decimals.
pub proof fn law_the_point_parts_the_digits(chars: Seq<char>, at: int)
    requires
        0 <= at < chars.len(),
        chars[at] == '.' || chars[at] == 'D',
        forall|k: int| 0 <= k < at ==> #[trigger] chars[k] != '.' && chars[k] != 'D',
    ensures
        ({
            let f = with_elements(chars, 0, empty_format());
            let p = |c: char| c == '9' || c == '0';
            &&& f.has_decimal_point
            &&& f.int_zeros.len() == chars.take(at).filter(p).len()
            &&& f.decimals == chars.skip(at + 1).filter(p).len()
        }),
{
    lemma_elements_split(chars, at, 0, empty_format());
    assert(chars.subrange(0, at) =~= chars.take(at));
}

/// Whether a picture's whole part ends at a position: at its first decimal point, or at its end.
pub open spec fn ends_whole_part(chars: Seq<char>, at: int) -> bool {
    &&& 0 <= at <= chars.len()
    &&& at < chars.len() ==> chars[at] == '.' || chars[at] == 'D'
    &&& forall|k: int| 0 <= k < at ==> #[trigger] chars[k] != '.' && chars[k] != 'D'
}

/// The number of digits in a part of a picture.
pub open spec fn digit_count(s: Seq<char>) -> nat {
    s.filter(|c: char| c == '9' || c == '0').len()
}

proof fn lemma_one_filtered(c: char, p: spec_fn(char) -> bool)
    ensures
        seq![c].filter(p) == if p(c) {
            seq![c]
        } else {
            Seq::<char>::empty()
        },
{
    reveal_with_fuel(Seq::filter, 3);
    let one = seq![c];
    assert(one.drop_last() =~= Seq::<char>::empty());
    assert(one.last() == c);
    assert(Seq::<char>::empty().push(c) =~= one);
}

/// Digits from a position on are the digit there, if it is one, and those behind it.
proof fn lemma_first_digit(chars: Seq<char>, i: int, at: int)
    requires
        0 <= i < at <= chars.len(),
    ensures
        ({
            let p = |c: char| c == '9' || c == '0';
            chars.subrange(i, at).filter(p) == if p(chars[i]) {
                seq![chars[i]] + chars.subrange(i + 1, at).filter(p)
            } else {
                chars.subrange(i + 1, at).filter(p)
            }
        }),
{
    let p = |c: char| c == '9' || c == '0';
    let rest = chars.subrange(i + 1, at);
    assert(chars.subrange(i, at) =~= seq![chars[i]] + rest);
    Seq::filter_distributes_over_add(seq![chars[i]], rest, p);
    lemma_one_filtered(chars[i], p);
    assert(Seq::<char>::empty() + rest.filter(p) =~= rest.filter(p));
}

proof fn lemma_whole_digits(chars: Seq<char>, at: int, i: int, f: FormatModel)
    requires
        ends_whole_part(chars, at),
        0 <= i <= at,
        !f.has_decimal_point,
    ensures
        with_elements(chars, i, f).int_zeros == f.int_zeros + chars.subrange(i, at).filter(
            |c: char| c == '9' || c == '0',
        ).map_values(|c: char| c == '0'),
    decreases at - i,
{
    let p = |c: char| c == '9' || c == '0';
    let z = |c: char| c == '0';
    if i < at {
        let after = with_element(chars, i, f);
        let step = element_len(chars, i);
        lemma_first_digit(chars, i, at);
        if step == 2 {
            lemma_first_digit(chars, i + 1, at);
        }
        lemma_whole_digits(chars, at, i + step, after);
        let rest = chars.subrange(i + step, at).filter(p);
        if p(chars[i]) {
            assert((seq![chars[i]] + rest).map_values(z) =~= seq![chars[i] == '0']
                + rest.map_values(z));
            assert(f.int_zeros.push(chars[i] == '0') + rest.map_values(z) =~= f.int_zeros + (seq![
                chars[i] == '0',
            ] + rest.map_values(z)));
        }
    } else {
        reveal(Seq::filter);
        assert(chars.subrange(i, at) =~= Seq::<char>::empty());
        assert(Seq::<char>::empty().filter(p).map_values(z) =~= Seq::<bool>::empty());
        assert(f.int_zeros + Seq::<bool>::empty() =~= f.int_zeros);
        if at < chars.len() {
            lemma_elements(chars, at + 1, with_element(chars, at, f));
        }
    }
}

/// Each digit of a picture's whole part shows a zero where it is a `0` and a blank where it is a `9`,
/// in their order.
pub proof fn law_zeros_are_shown_where_the_picture_has_them(chars: Seq<char>, at: int)
    requires
        ends_whole_part(chars, at),
    ensures
        with_elements(chars, 0, empty_format()).int_zeros == chars.take(at).filter(
            |c: char| c == '9' || c == '0',
        ).map_values(|c: char| c == '0'),
{
    lemma_whole_digits(chars, at, 0, empty_format());
    let p = |c: char| c == '9' || c == '0';
    let z = |c: char| c == '0';
    assert(chars.subrange(0, at) =~= chars.take(at));
    assert(empty_format().int_zeros + chars.take(at).filter(p).map_values(z) =~= chars.take(
        at,
    ).filter(p).map_values(z));
}

proof fn lemma_groups_follow(chars: Seq<char>, at: int, i: int, f: FormatModel)
    requires
        ends_whole_part(chars, at),
        0 <= i <= at,
        chars.len() <= usize::MAX,
        !f.has_decimal_point,
        f.int_zeros.len() == digit_count(chars.take(i)),
        are_groups(chars, i, f.groups),
    ensures
        are_groups(chars, at, with_elements(chars, i, f).groups),
    decreases at - i,
{
    if i < at {
        let after = with_element(chars, i, f);
        let step = element_len(chars, i);
        lemma_digit_count_next(chars, i);
        if step == 2 {
            lemma_digit_count_next(chars, i + 1);
        }
        chars.take(i).lemma_filter_len(|c: char| c == '9' || c == '0');
        assert(are_groups(chars, i + step, after.groups)) by {
            assert forall|g: int| 0 <= g < after.groups.len() implies follows_digits(
                chars,
                i + step,
                #[trigger] after.groups[g],
            ) by {
                if g < f.groups.len() {
                    assert(after.groups[g] == f.groups[g]);
                    assert(follows_digits(chars, i, f.groups[g]));
                    let q = choose|q: int|
                        0 <= q < i && is_separator(#[trigger] chars[q]) && f.groups[g]
                            == digit_count(chars.take(q));
                    assert(is_separator(chars[q]));
                } else {
                    assert(is_separator(chars[i]));
                }
            }
            assert forall|q: int| 0 <= q < i + step && is_separator(#[trigger] chars[q]) implies
                exists|g: int|
                0 <= g < after.groups.len() && #[trigger] after.groups[g] == digit_count(
                    chars.take(q),
                ) by {
                if q < i {
                    let g = choose|g: int|
                        0 <= g < f.groups.len() && #[trigger] f.groups[g] == digit_count(
                            chars.take(q),
                        );
                    assert(after.groups[g] == f.groups[g]);
                } else {
                    assert(q == i);
                    assert(after.groups[f.groups.len() as int] == digit_count(chars.take(q)));
                }
            }
        }
        lemma_groups_follow(chars, at, i + step, after);
    } else if at < chars.len() {
        lemma_elements(chars, at + 1, with_element(chars, at, f));
    }
}

proof fn lemma_digit_count_next(chars: Seq<char>, i: int)
    requires
        0 <= i < chars.len(),
    ensures
        digit_count(chars.take(i + 1)) == digit_count(chars.take(i)) + if chars[i] == '9'
            || chars[i] == '0' {
            1nat
        } else {
            0nat
        },
{
    let p = |c: char| c == '9' || c == '0';
    assert(chars.take(i + 1) =~= chars.take(i).push(chars[i]));
    chars.take(i).lemma_filter_len_push(p, chars[i]);
}

/// Whether a character of a picture is a group separator.
pub open spec fn is_separator(c: char) -> bool {
    c == 'G' || c == ','
}

/// Whether some separator before a position has a number of digits before it.
pub open spec fn follows_digits(chars: Seq<char>, at: int, n: usize) -> bool {
    exists|q: int|
        0 <= q < at && is_separator(#[trigger] chars[q]) && n == digit_count(chars.take(q))
}

/// Whether groups are those of the separators before a position: one for each number of digits that
/// stands before a separator, and no others.
pub open spec fn are_groups(chars: Seq<char>, at: int, groups: Seq<usize>) -> bool {
    &&& forall|g: int| 0 <= g < groups.len() ==> follows_digits(chars, at, #[trigger] groups[g])
    &&& forall|q: int|
        0 <= q < at && is_separator(#[trigger] chars[q]) ==> exists|g: int|
            0 <= g < groups.len() && #[trigger] groups[g] == digit_count(chars.take(q))
}

/// A separator of a picture's whole part stands behind as many digits as come before it in the text;
/// separators behind the decimal point do not count.
pub proof fn law_groups_follow_the_separators(chars: Seq<char>, at: int)
    requires
        ends_whole_part(chars, at),
        chars.len() <= usize::MAX,
    ensures
        are_groups(chars, at, with_elements(chars, 0, empty_format()).groups),
{
    reveal(Seq::filter);
    assert(chars.take(0) =~= Seq::<char>::empty());
    lemma_groups_follow(chars, at, 0, empty_format());
}

proof fn lemma_marks(chars: Seq<char>, i: int, f: FormatModel)
    requires
        0 <= i <= chars.len(),
    ensures
        ({
            let g = with_elements(chars, i, f);
            &&& i >= 2 ==> g.has_dollar == f.has_dollar
            &&& g.trailing_sign <==> f.trailing_sign || (i < chars.len() && chars.last() == 'S')
                || exists|k: int|
                i <= k < chars.len() - 1 && #[trigger] chars[k] == 'M' && chars[k + 1] == 'I'
        }),
    decreases chars.len() - i,
{
    if i < chars.len() {
        let step = element_len(chars, i);
        let after = with_element(chars, i, f);
        lemma_marks(chars, i + step, after);
        if exists|k: int|
            i <= k < chars.len() - 1 && #[trigger] chars[k] == 'M' && chars[k + 1] == 'I' {
            let k = choose|k: int|
                i <= k < chars.len() - 1 && #[trigger] chars[k] == 'M' && chars[k + 1] == 'I';
            if k >= i + step {
                assert(chars[k] == 'M' && chars[k + 1] == 'I');
            } else if step == 2 {
                assert(after.trailing_sign);
            } else {
                assert(k == i);
            }
        }
        if step == 2 {
            assert(chars[i] == 'M' && chars[i + 1] == 'I');
        }
    }
}

/// A picture has a sign where it ends with `S` or holds `MI`, and a dollar where it starts with one,
/// or has one as its second character, but not behind a decimal point.
pub proof fn law_signs_and_dollars_are_read(chars: Seq<char>)
    ensures
        ({
            let f = with_elements(chars, 0, empty_format());
            &&& f.trailing_sign <==> (chars.len() > 0 && chars.last() == 'S') || exists|k: int|
                0 <= k < chars.len() - 1 && #[trigger] chars[k] == 'M' && chars[k + 1] == 'I'
            &&& f.has_dollar <==> (chars.len() > 0 && chars[0] == '$') || (chars.len() > 1
                && chars[1] == '$' && chars[0] != '.' && chars[0] != 'D')
        }),
{
    lemma_marks(chars, 0, empty_format());
    if chars.len() > 0 {
        let one = with_element(chars, 0, empty_format());
        let step = element_len(chars, 0);
        if step == 2 {
            lemma_marks(chars, 2, one);
        } else if chars.len() > 1 {
            let two = with_element(chars, 1, one);
            let next = 1 + element_len(chars, 1);
            lemma_marks(chars, next, two);
            assert(with_elements(chars, 1, one) == with_elements(chars, next, two));
        } else {
            assert(with_elements(chars, 1, one) == one);
        }
    }
}

} // verus!
