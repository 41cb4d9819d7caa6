//! The texts of JSON records, as far as the parser of decimal numbers can take them.

use datafusion::arrow::datatypes::Schema;
use vstd::prelude::*;
use vstd::slice::slice_subrange;
use vstd::utf8::encode_utf8;

use crate::bytes;
use crate::json::is_space;
use crate::record_batch;
use crate::record_batch::{inside, schema_fields, type_kinds, type_parts, Decimal, FieldKind};

verus! {

/// Whether a byte is a digit.
pub open spec fn is_digit(b: u8) -> bool {
    0x30 <= b <= 0x39
}

fn digit(b: u8) -> (is: bool)
    ensures
        is == is_digit(b),
{
    0x30 <= b && b <= 0x39
}

/// Where the digits from a position on end.
pub open spec fn digits_end(t: Seq<u8>, from: int) -> int
    decreases t.len() - from,
{
    if 0 <= from < t.len() && is_digit(t[from]) {
        digits_end(t, from + 1)
    } else {
        from
    }
}

/// Where the zeros from a position on end.
pub open spec fn zeros_end(t: Seq<u8>, from: int) -> int
    decreases t.len() - from,
{
    if 0 <= from < t.len() && t[from] == 0x30 {
        zeros_end(t, from + 1)
    } else {
        from
    }
}

/// The largest exponent that is read.
pub const EXPONENT_LIMIT: u32 = 32767;

/// An exponent: whether it is negative, and its number, up to the first digit with which it is larger
/// than those that are read.
#[derive(Debug, Clone, Copy, PartialEq, Eq, Structural)]
pub struct Exponent {
    pub negative: bool,
    pub number: u32,
}

/// The exponent with one more digit.
pub open spec fn with_digit(exponent: Exponent, b: u8) -> Exponent {
    if exponent.number > EXPONENT_LIMIT {
        exponent
    } else {
        Exponent { number: (exponent.number * 10 + (b - 0x30)) as u32, ..exponent }
    }
}

/// The exponent that goes on at a position: digits, with one sign at most.
pub open spec fn exponent_from(t: Seq<u8>, from: int, signed: bool, exponent: Exponent) -> Exponent
    decreases t.len() - from,
{
    if from < 0 || from >= t.len() {
        exponent
    } else if is_digit(t[from]) {
        exponent_from(t, from + 1, signed, with_digit(exponent, t[from]))
    } else if !signed && (t[from] == 0x2d || t[from] == 0x2b) {
        let negative = t[from] == 0x2d;
        exponent_from(t, from + 1, true, Exponent { negative, ..exponent })
    } else {
        exponent
    }
}

/// The parts of a text that is read as a number, as far as it is one.
pub struct NumberParts {
    /// The number of digits in front of the point, without leading zeros.
    pub whole: int,
    /// The number of digits behind the point.
    pub fraction: int,
    pub exponent: Option<Exponent>,
}

/// The parts of a text.
pub open spec fn number_parts(t: Seq<u8>) -> NumberParts {
    let start = if t.len() > 0 && (t[0] == 0x2d || t[0] == 0x2b) {
        1
    } else {
        0
    };
    let whole_end = digits_end(t, start);
    let point = whole_end < t.len() && t[whole_end] == 0x2e;
    let end = if point {
        digits_end(t, whole_end + 1)
    } else {
        whole_end
    };
    NumberParts {
        whole: whole_end - zeros_end(t, start),
        fraction: if point {
            end - (whole_end + 1)
        } else {
            0
        },
        exponent: if end < t.len() && (t[end] == 0x65 || t[end] == 0x45) {
            Some(exponent_from(t, end + 1, false, Exponent { negative: false, number: 0 }))
        } else {
            None
        },
    }
}

/// Whether a text ends like a number: with a digit, or with a point behind something.
pub open spec fn ends_as_number(t: Seq<u8>) -> bool {
    t.len() > 0 && (is_digit(t.last()) || t.last() == 0x2e && t.len() > 1)
}

/// The number of digits behind the point that are counted first: no more than the scale.
pub open spec fn counted(fraction: int, scale: i8) -> int {
    if 0 <= scale < fraction {
        scale as int
    } else {
        fraction
    }
}

/// Whether the parts of a number keep within the counters of the parser of decimal numbers, and the
/// power of ten that it divides by is not zero in as many bits as the decimal has.
pub open spec fn parts_fit(parts: NumberParts, decimal: Decimal) -> bool {
    let scale = decimal.scale as int;
    let first = counted(parts.fraction, decimal.scale);
    &&& parts.whole + first <= 255
    &&& first <= 127
    &&& match parts.exponent {
        None => first < scale ==> parts.whole + scale <= 255,
        Some(exponent) => {
            let digits = parts.whole + parts.fraction;
            let number = exponent.number as int;
            let shift = if exponent.negative {
                parts.fraction + number - scale
            } else {
                parts.fraction - number - scale
            };
            &&& digits + number + 128 <= 32767
            &&& exponent.negative && number > digits + scale || shift < decimal.bits
        },
    }
}

/// Whether the parser of decimal numbers can take a text: it is no number by its end, or its parts
/// fit.
pub open spec fn number_fits(t: Seq<u8>, decimal: Decimal) -> bool {
    ends_as_number(t) ==> parts_fit(number_parts(t), decimal)
}

fn find_digits_end(t: &[u8], from: usize) -> (end: usize)
    requires
        from <= t@.len(),
    ensures
        end == digits_end(t@, from as int),
        from <= end <= t@.len(),
{
    let mut end: usize = from;
    while end < t.len() && digit(t[end])
        invariant
            from <= end <= t@.len(),
            digits_end(t@, from as int) == digits_end(t@, end as int),
        decreases t@.len() - end,
    {
        end = end + 1;
    }
    end
}

proof fn lemma_zeros_within(t: Seq<u8>, from: int)
    requires
        0 <= from <= t.len(),
    ensures
        from <= zeros_end(t, from) <= digits_end(t, from) <= t.len(),
    decreases t.len() - from,
{
    if from < t.len() && is_digit(t[from]) {
        lemma_zeros_within(t, from + 1);
        if t[from] != 0x30 {
            lemma_digits_within(t, from + 1);
        }
    }
}

proof fn lemma_digits_within(t: Seq<u8>, from: int)
    requires
        0 <= from <= t.len(),
    ensures
        from <= digits_end(t, from) <= t.len(),
    decreases t.len() - from,
{
    if from < t.len() && is_digit(t[from]) {
        lemma_digits_within(t, from + 1);
    }
}

fn read_exponent(t: &[u8], from: usize) -> (exponent: Exponent)
    requires
        from <= t@.len(),
    ensures
        exponent == exponent_from(
            t@,
            from as int,
            false,
            Exponent { negative: false, number: 0 },
        ),
{
    let mut exponent = Exponent { negative: false, number: 0 };
    let mut signed = false;
    let mut i: usize = from;
    while i < t.len()
        invariant
            from <= i <= t@.len(),
            exponent.number <= 10 * EXPONENT_LIMIT + 9,
            exponent_from(t@, from as int, false, Exponent { negative: false, number: 0 })
                == exponent_from(t@, i as int, signed, exponent),
        decreases t@.len() - i,
    {
        let b: u8 = t[i];
        if digit(b) {
            if exponent.number <= EXPONENT_LIMIT {
                exponent = Exponent {
                    negative: exponent.negative,
                    number: exponent.number * 10 + (b - 0x30) as u32,
                };
            }
        } else if !signed && (b == 0x2d || b == 0x2b) {
            exponent = Exponent { negative: b == 0x2d, number: exponent.number };
            signed = true;
        } else {
            return exponent;
        }
        i = i + 1;
    }
    exponent
}

fn find_zeros_end(t: &[u8], from: usize) -> (end: usize)
    requires
        from <= t@.len(),
    ensures
        end == zeros_end(t@, from as int),
        from <= end <= digits_end(t@, from as int),
{
    let mut end: usize = from;
    while end < t.len() && t[end] == 0x30
        invariant
            from <= end <= t@.len(),
            zeros_end(t@, from as int) == zeros_end(t@, end as int),
        decreases t@.len() - end,
    {
        end = end + 1;
    }
    proof {
        lemma_zeros_within(t@, from as int);
    }
    end
}

/// Reads the parts of a text: how many digits are in front of the point and behind it, and the
/// exponent.
fn read_parts(t: &[u8]) -> (parts: (usize, usize, Option<Exponent>))
    ensures
        number_parts(t@) == (NumberParts {
            whole: parts.0 as int,
            fraction: parts.1 as int,
            exponent: parts.2,
        }),
{
    let n: usize = t.len();
    let start: usize = if n > 0 && (t[0] == 0x2d || t[0] == 0x2b) {
        1
    } else {
        0
    };
    let zeros: usize = find_zeros_end(t, start);
    let whole_end: usize = find_digits_end(t, start);
    let mut end: usize = whole_end;
    let mut fraction: usize = 0;
    if whole_end < n && t[whole_end] == 0x2e {
        end = find_digits_end(t, whole_end + 1);
        fraction = end - (whole_end + 1);
    }
    let exponent = if end < n && (t[end] == 0x65 || t[end] == 0x45) {
        Some(read_exponent(t, end + 1))
    } else {
        None
    };
    (whole_end - zeros, fraction, exponent)
}

fn check_exponent(digits: i128, fraction: i128, exponent: Exponent, decimal: Decimal) -> (fits: bool)
    requires
        0 <= fraction <= digits <= 0x4_0000_0000_0000_0000,
    ensures
        fits == {
            let number = exponent.number as int;
            let shift = if exponent.negative {
                fraction + number - decimal.scale
            } else {
                fraction - number - decimal.scale
            };
            &&& digits + number + 128 <= 32767
            &&& exponent.negative && number > digits + decimal.scale || shift < decimal.bits
        },
{
    let number: i128 = exponent.number as i128;
    let scale: i128 = decimal.scale as i128;
    if digits + number + 128 > 32767 {
        return false;
    }
    if exponent.negative {
        number > digits + scale || fraction + number - scale < decimal.bits as i128
    } else {
        fraction - number - scale < decimal.bits as i128
    }
}

/// Whether the parser of decimal numbers can take a text.
pub fn check_number(t: &[u8], decimal: Decimal) -> (fits: bool)
    ensures
        fits == number_fits(t@, decimal),
{
    let n: usize = t.len();
    if n == 0 || !(digit(t[n - 1]) || t[n - 1] == 0x2e && n > 1) {
        return true;
    }
    let (whole, fraction, exponent) = read_parts(t);
    let whole: i128 = whole as i128;
    let fraction: i128 = fraction as i128;
    let scale: i128 = decimal.scale as i128;
    let first: i128 = if 0 <= scale && scale < fraction {
        scale
    } else {
        fraction
    };
    if whole + first > 255 || first > 127 {
        return false;
    }
    match exponent {
        None => first >= scale || whole + scale <= 255,
        Some(e) => check_exponent(whole + fraction, fraction, e, decimal),
    }
}

/// A decimal among the columns and the fields inside them, and the name of the member of a JSON
/// object in which its values are; none where that member may have any name.
#[derive(Debug)]
pub struct DecimalField {
    pub owner: Option<String>,
    pub decimal: Decimal,
}

/// A decimal and the member in which its values are.
#[verifier::ext_equal]
pub struct DecimalModel {
    pub owner: Option<Seq<char>>,
    pub decimal: Decimal,
}

impl View for DecimalField {
    type V = DecimalModel;

    open spec fn view(&self) -> DecimalModel {
        DecimalModel {
            owner: match self.owner {
                Some(name) => Some(name@),
                None => None,
            },
            decimal: self.decimal,
        }
    }
}

/// Decimals as models.
pub open spec fn decimal_models(decimals: Seq<DecimalField>) -> Seq<DecimalModel> {
    decimals.map_values(|d: DecimalField| d@)
}

/// Which member of a JSON object holds the values of a field.
#[derive(Debug, Clone, Copy, PartialEq, Eq, Structural)]
pub enum Member {
    /// The one with the field's own name.
    Own,
    /// The one with the name of the field at a position.
    Of { field: usize },
    /// The one with the entries of a map.
    Entries,
    /// Any: it is an entry of a map.
    Any,
}

/// The decimals so far, and for the fields that come next, the next one last, the members that hold
/// them.
#[verifier::ext_equal]
pub struct Decimals {
    pub next: Seq<Member>,
    pub found: Seq<DecimalModel>,
}

/// The member that holds the values of the field at a position.
pub open spec fn own_member(next: Seq<Member>, field: usize) -> Member {
    if next.len() == 0 || next.last() is Own {
        Member::Of { field }
    } else {
        next.last()
    }
}

/// The member that holds the values of the fields inside one of some kind.
pub open spec fn inner_member(kind: FieldKind, member: Member) -> Member {
    match kind {
        FieldKind::Struct { .. } => if member is Entries {
            Member::Any
        } else {
            Member::Own
        },
        FieldKind::Entries => Member::Entries,
        _ => member,
    }
}

/// The name of the field at a position in a column with a name.
pub open spec fn part_name(
    name: Seq<char>,
    parts: Seq<(Seq<char>, Option<Decimal>)>,
    field: int,
) -> Seq<char> {
    if field == 0 {
        name
    } else {
        parts[field].0
    }
}

/// The decimals in the first `n` fields of a column with a name.
pub open spec fn decimals_in(
    name: Seq<char>,
    kinds: Seq<FieldKind>,
    parts: Seq<(Seq<char>, Option<Decimal>)>,
    n: nat,
) -> Decimals
    decreases n,
{
    if n == 0 {
        Decimals { next: Seq::empty(), found: Seq::empty() }
    } else {
        let before = decimals_in(name, kinds, parts, (n - 1) as nat);
        let kind = kinds[n - 1];
        let member = own_member(before.next, (n - 1) as usize);
        let rest = if before.next.len() > 0 {
            before.next.drop_last()
        } else {
            before.next
        };
        Decimals {
            next: rest + Seq::new(inside(kind), |i: int| inner_member(kind, member)),
            found: match parts[n - 1].1 {
                Some(decimal) => before.found.push(
                    DecimalModel {
                        owner: match member {
                            Member::Of { field } => Some(part_name(name, parts, field as int)),
                            _ => None,
                        },
                        decimal,
                    },
                ),
                None => before.found,
            },
        }
    }
}

/// The decimals among columns and in the fields inside them.
pub open spec fn fields_decimals(fields: Seq<(Seq<char>, Seq<char>, bool)>) -> Seq<DecimalModel>
    decreases fields.len(),
{
    if fields.len() == 0 {
        Seq::empty()
    } else {
        let words = fields.last().1;
        let own = decimals_in(
            fields.last().0,
            type_kinds(words),
            type_parts(words),
            type_kinds(words).len(),
        );
        fields_decimals(fields.drop_last()) + own.found
    }
}

/// The names and decimals of fields as models.
pub open spec fn part_models(parts: Seq<(String, Option<Decimal>)>) -> Seq<
    (Seq<char>, Option<Decimal>),
> {
    parts.map_values(|p: (String, Option<Decimal>)| (p.0@, p.1))
}

fn column_decimals(
    name: &str,
    kinds: &[FieldKind],
    parts: &[(String, Option<Decimal>)],
) -> (found: Vec<DecimalField>)
    requires
        parts@.len() == kinds@.len(),
    ensures
        decimal_models(found@) == decimals_in(
            name@,
            kinds@,
            part_models(parts@),
            kinds@.len(),
        ).found,
{
    let ghost models = part_models(parts@);
    let mut next: Vec<Member> = Vec::new();
    let mut found: Vec<DecimalField> = Vec::new();
    let mut i: usize = 0;
    assert(decimal_models(found@) =~= Seq::<DecimalModel>::empty());
    while i < kinds.len()
        invariant
            i <= kinds@.len() == parts@.len(),
            models == part_models(parts@),
            forall|k: int| 0 <= k < next@.len() ==> ((#[trigger] next@[k]) matches Member::Of { field }
                ==> field < i),
            decimals_in(name@, kinds@, models, i as nat) == (Decimals {
                next: next@,
                found: decimal_models(found@),
            }),
        decreases kinds@.len() - i,
    {
        let ghost before = next@;
        let ghost known = decimal_models(found@);
        let kind = kinds[i];
        let member = match next.pop() {
            Some(Member::Own) => Member::Of { field: i },
            Some(other) => other,
            None => Member::Of { field: i },
        };
        proof {
            if before.len() > 0 {
                assert(before.last() == before[before.len() - 1]);
            }
            assert(member == own_member(before, i));
        }
        let ghost rest = next@;
        let inner = match kind {
            FieldKind::Struct { .. } => match member {
                Member::Entries => Member::Any,
                _ => Member::Own,
            },
            FieldKind::Entries => Member::Entries,
            _ => member,
        };
        let fields: usize = match kind {
            FieldKind::FixedList { .. } => 1,
            FieldKind::Runs { .. } => 1,
            FieldKind::Struct { fields } => fields,
            FieldKind::List => 1,
            FieldKind::Entries => 1,
            _ => 0,
        };
        let mut k: usize = 0;
        assert(rest + Seq::new(0, |j: int| inner) =~= rest);
        while k < fields
            invariant
                k <= fields,
                inner matches Member::Of { field } ==> field < i + 1,
                next@ == rest + Seq::new(k as nat, |j: int| inner),
                forall|j: int| 0 <= j < next@.len() ==> ((#[trigger] next@[j]) matches Member::Of {
                    field,
                } ==> field < i + 1),
            decreases fields - k,
        {
            next.push(inner);
            k = k + 1;
            assert(next@ =~= rest + Seq::new(k as nat, |j: int| inner));
        }
        if let Some(decimal) = parts[i].1 {
            let owner = match member {
                Member::Of { field } => Some(
                    if field == 0 {
                        name.to_owned()
                    } else {
                        parts[field].0.as_str().to_owned()
                    },
                ),
                _ => None,
            };
            let one = DecimalField { owner, decimal };
            let ghost view = one@;
            found.push(one);
            assert(decimal_models(found@) =~= known.push(view));
        }
        i = i + 1;
        proof {
            let now = decimals_in(name@, kinds@, models, i as nat);
            assert(now.next =~= next@);
            assert(now.found =~= decimal_models(found@));
        }
    }
    found
}

/// The decimals among the columns of a schema and in the fields inside them.
pub(crate) fn schema_decimals(schema: &Schema) -> (found: Vec<DecimalField>)
    ensures
        decimal_models(found@) == fields_decimals(schema_fields(*schema)),
{
    let ghost fields = schema_fields(*schema);
    let count = record_batch::column_count(schema);
    let mut found: Vec<DecimalField> = Vec::new();
    let mut i: usize = 0;
    proof {
        assert(fields.take(0) =~= Seq::<(Seq<char>, Seq<char>, bool)>::empty());
        assert(decimal_models(found@) =~= Seq::<DecimalModel>::empty());
    }
    while i < count
        invariant
            i <= count == fields.len(),
            fields == schema_fields(*schema),
            decimal_models(found@) == fields_decimals(fields.take(i as int)),
        decreases count - i,
    {
        let ghost before = decimal_models(found@);
        let name = record_batch::column_name(schema, i);
        let kinds = record_batch::column_kinds(schema, i);
        let parts = record_batch::column_parts(schema, i);
        let mut own = column_decimals(name.as_str(), kinds.as_slice(), parts.as_slice());
        let ghost new = decimal_models(own@);
        found.append(&mut own);
        proof {
            assert(fields.take(i + 1).drop_last() =~= fields.take(i as int));
            assert(fields.take(i + 1).last() == fields[i as int]);
            assert(decimal_models(found@) =~= before + new);
        }
        i = i + 1;
    }
    assert(fields.take(i as int) =~= fields);
    found
}

/// Whether a member of a JSON object may hold the values of a field: it has the name, or one that is
/// escaped.
pub open spec fn may_hold(key: Seq<u8>, owner: Option<Seq<char>>) -> bool {
    match owner {
        Some(name) => key == encode_utf8(name) || key.contains(0x5c),
        None => true,
    }
}

/// Whether the decimals that a member holds can take a text, which is not escaped.
pub open spec fn text_fits(key: Seq<u8>, t: Seq<u8>, decimals: Seq<DecimalModel>) -> bool {
    forall|k: int|
        0 <= k < decimals.len() && may_hold(key, (#[trigger] decimals[k]).owner) ==> !t.contains(
            0x5c,
        ) && number_fits(t, decimals[k].decimal)
}

/// Whether the decimals that are entries of maps can take a key.
pub open spec fn key_fits(t: Seq<u8>, decimals: Seq<DecimalModel>) -> bool {
    forall|k: int|
        0 <= k < decimals.len() && (#[trigger] decimals[k]).owner is None ==> !t.contains(0x5c)
            && number_fits(t, decimals[k].decimal)
}

/// Where the text of a string ends that goes on at a position: at the next quote that is not
/// escaped.
pub open spec fn string_end(b: Seq<u8>, from: int) -> int
    decreases b.len() - from,
{
    if from < 0 || from >= b.len() {
        b.len() as int
    } else if b[from] == 0x22 {
        from
    } else if b[from] == 0x5c && from + 1 < b.len() {
        string_end(b, from + 2)
    } else {
        string_end(b, from + 1)
    }
}

/// Whether a byte stands between the tokens of JSON, or is one.
pub open spec fn is_delimiter(b: u8) -> bool {
    is_space(b) || b == 0x2c || b == 0x3a || b == 0x22 || b == 0x7b || b == 0x7d || b == 0x5b || b
        == 0x5d
}

/// Where a number or a word ends that goes on at a position.
pub open spec fn word_end(b: Seq<u8>, from: int) -> int
    decreases b.len() - from,
{
    if 0 <= from < b.len() && !is_delimiter(b[from]) {
        word_end(b, from + 1)
    } else {
        from
    }
}

/// Whether a colon comes next, behind white space.
pub open spec fn colon_next(b: Seq<u8>, from: int) -> bool
    decreases b.len() - from,
{
    if 0 <= from < b.len() && is_space(b[from]) {
        colon_next(b, from + 1)
    } else {
        0 <= from < b.len() && b[from] == 0x3a
    }
}

/// Whether the decimals can take the texts and numbers of a JSON record from a position on: each is
/// in the member with the last key in front of it that is not inside another object or list. `key`
/// is where that key stands, and `open` where those stand that come back at the end of an object or
/// list.
pub open spec fn fits_from(
    b: Seq<u8>,
    from: int,
    key: (usize, usize),
    open: Seq<(usize, usize)>,
    decimals: Seq<DecimalModel>,
) -> bool
    decreases b.len() - from,
{
    if from < 0 || from >= b.len() {
        true
    } else if b[from] == 0x22 {
        let end = string_end(b, from + 1);
        let text = b.subrange(from + 1, end);
        if end <= from || end >= b.len() {
            text_fits(b.subrange(key.0 as int, key.1 as int), text, decimals)
        } else if colon_next(b, end + 1) {
            key_fits(text, decimals) && fits_from(
                b,
                end + 1,
                ((from + 1) as usize, end as usize),
                open,
                decimals,
            )
        } else {
            text_fits(b.subrange(key.0 as int, key.1 as int), text, decimals) && fits_from(
                b,
                end + 1,
                key,
                open,
                decimals,
            )
        }
    } else if b[from] == 0x7b || b[from] == 0x5b {
        fits_from(b, from + 1, key, open.push(key), decimals)
    } else if b[from] == 0x7d || b[from] == 0x5d {
        if open.len() > 0 {
            fits_from(b, from + 1, open.last(), open.drop_last(), decimals)
        } else {
            fits_from(b, from + 1, key, open, decimals)
        }
    } else if is_delimiter(b[from]) {
        fits_from(b, from + 1, key, open, decimals)
    } else {
        let end = word_end(b, from);
        if end <= from || end > b.len() {
            true
        } else {
            text_fits(
                b.subrange(key.0 as int, key.1 as int),
                b.subrange(from, end),
                decimals,
            ) && fits_from(b, end, key, open, decimals)
        }
    }
}

/// Whether the decimal columns among some can take the texts and numbers of a JSON record.
pub open spec fn is_readable(line: Seq<u8>, fields: Seq<(Seq<char>, Seq<char>, bool)>) -> bool {
    fits_from(line, 0, (0, 0), Seq::empty(), fields_decimals(fields))
}

/// The number of tokens of a JSON record from a position on: texts, numbers and words, and the starts
/// and ends of objects and lists.
pub open spec fn tokens_from(b: Seq<u8>, from: int) -> nat
    decreases b.len() - from,
{
    if from < 0 || from >= b.len() {
        0
    } else if b[from] == 0x22 {
        let end = string_end(b, from + 1);
        if end <= from || end >= b.len() {
            1
        } else {
            1 + tokens_from(b, end + 1)
        }
    } else if b[from] == 0x7b || b[from] == 0x5b || b[from] == 0x7d || b[from] == 0x5d {
        1 + tokens_from(b, from + 1)
    } else if is_delimiter(b[from]) {
        tokens_from(b, from + 1)
    } else {
        let end = word_end(b, from);
        if end <= from || end > b.len() {
            1
        } else {
            1 + tokens_from(b, end)
        }
    }
}

/// The number of tokens of JSON records.
pub open spec fn tokens_len(lines: Seq<Seq<u8>>) -> nat
    decreases lines.len(),
{
    if lines.len() == 0 {
        0
    } else {
        tokens_len(lines.drop_last()) + tokens_from(lines.last(), 0)
    }
}

fn delimiter(b: u8) -> (is: bool)
    ensures
        is == is_delimiter(b),
{
    b == 0x20 || b == 0x09 || b == 0x0a || b == 0x0c || b == 0x0d || b == 0x2c || b == 0x3a || b
        == 0x22 || b == 0x7b || b == 0x7d || b == 0x5b || b == 0x5d
}

fn find_string_end(b: &[u8], from: usize) -> (end: usize)
    requires
        from <= b@.len(),
    ensures
        end == string_end(b@, from as int),
        from <= end <= b@.len(),
{
    let mut end: usize = from;
    while end < b.len() && b[end] != 0x22
        invariant
            from <= end <= b@.len(),
            string_end(b@, from as int) == string_end(b@, end as int),
        decreases b@.len() - end,
    {
        if b[end] == 0x5c && b.len() - end > 1 {
            end = end + 2;
        } else {
            end = end + 1;
        }
    }
    end
}

fn find_word_end(b: &[u8], from: usize) -> (end: usize)
    requires
        from <= b@.len(),
    ensures
        end == word_end(b@, from as int),
        from <= end <= b@.len(),
        from < b@.len() && !is_delimiter(b@[from as int]) ==> end > from,
{
    let mut end: usize = from;
    while end < b.len() && !delimiter(b[end])
        invariant
            from <= end <= b@.len(),
            word_end(b@, from as int) == word_end(b@, end as int),
            from < b@.len() && !is_delimiter(b@[from as int]) && end < b@.len() && is_delimiter(
                b@[end as int],
            ) ==> end > from,
        decreases b@.len() - end,
    {
        end = end + 1;
    }
    end
}

fn is_colon_next(b: &[u8], from: usize) -> (is: bool)
    requires
        from <= b@.len(),
    ensures
        is == colon_next(b@, from as int),
{
    let mut i: usize = from;
    while i < b.len() && (b[i] == 0x20 || b[i] == 0x09 || b[i] == 0x0a || b[i] == 0x0c || b[i]
        == 0x0d)
        invariant
            from <= i <= b@.len(),
            colon_next(b@, from as int) == colon_next(b@, i as int),
        decreases b@.len() - i,
    {
        i = i + 1;
    }
    i < b.len() && b[i] == 0x3a
}

fn has_escape(t: &[u8]) -> (has: bool)
    ensures
        has == t@.contains(0x5c),
{
    let mut i: usize = 0;
    while i < t.len()
        invariant
            i <= t@.len(),
            forall|k: int| 0 <= k < i ==> #[trigger] t@[k] != 0x5c,
        decreases t@.len() - i,
    {
        if t[i] == 0x5c {
            assert(t@[i as int] == 0x5c);
            return true;
        }
        i = i + 1;
    }
    false
}

fn check_text(key: &[u8], t: &[u8], decimals: &[DecimalField]) -> (fits: bool)
    ensures
        fits == text_fits(key@, t@, decimal_models(decimals@)),
{
    let ghost models = decimal_models(decimals@);
    let mut k: usize = 0;
    while k < decimals.len()
        invariant
            k <= decimals@.len() == models.len(),
            models == decimal_models(decimals@),
            forall|j: int|
                0 <= j < k && may_hold(key@, (#[trigger] models[j]).owner) ==> !t@.contains(0x5c)
                    && number_fits(t@, models[j].decimal),
        decreases decimals@.len() - k,
    {
        assert(models[k as int] == decimals@[k as int]@);
        let held = match &decimals[k].owner {
            Some(name) => bytes::equal(key, name.as_str().as_bytes()) || has_escape(key),
            None => true,
        };
        if held && (has_escape(t) || !check_number(t, decimals[k].decimal)) {
            return false;
        }
        k = k + 1;
    }
    true
}

fn check_key(t: &[u8], decimals: &[DecimalField]) -> (fits: bool)
    ensures
        fits == key_fits(t@, decimal_models(decimals@)),
{
    let ghost models = decimal_models(decimals@);
    let mut k: usize = 0;
    while k < decimals.len()
        invariant
            k <= decimals@.len() == models.len(),
            models == decimal_models(decimals@),
            forall|j: int|
                0 <= j < k && (#[trigger] models[j]).owner is None ==> !t@.contains(0x5c)
                    && number_fits(t@, models[j].decimal),
        decreases decimals@.len() - k,
    {
        assert(models[k as int] == decimals@[k as int]@);
        if decimals[k].owner.is_none() && (has_escape(t) || !check_number(
            t,
            decimals[k].decimal,
        )) {
            return false;
        }
        k = k + 1;
    }
    true
}

proof fn lemma_no_decimals(
    b: Seq<u8>,
    from: int,
    key: (usize, usize),
    open: Seq<(usize, usize)>,
    decimals: Seq<DecimalModel>,
)
    requires
        decimals.len() == 0,
    ensures
        fits_from(b, from, key, open, decimals),
    decreases b.len() - from,
{
    if 0 <= from < b.len() {
        if b[from] == 0x22 {
            let end = string_end(b, from + 1);
            if from < end < b.len() {
                lemma_no_decimals(b, end + 1, ((from + 1) as usize, end as usize), open, decimals);
                lemma_no_decimals(b, end + 1, key, open, decimals);
            }
        } else if b[from] == 0x7b || b[from] == 0x5b {
            lemma_no_decimals(b, from + 1, key, open.push(key), decimals);
        } else if b[from] == 0x7d || b[from] == 0x5d {
            if open.len() > 0 {
                lemma_no_decimals(b, from + 1, open.last(), open.drop_last(), decimals);
            } else {
                lemma_no_decimals(b, from + 1, key, open, decimals);
            }
        } else if is_delimiter(b[from]) {
            lemma_no_decimals(b, from + 1, key, open, decimals);
        } else {
            let end = word_end(b, from);
            if from < end <= b.len() {
                lemma_no_decimals(b, end, key, open, decimals);
            }
        }
    }
}

/// Whether the decimals can take the texts and numbers of a JSON record.
pub fn check_record(line: &[u8], decimals: &[DecimalField]) -> (fits: bool)
    ensures
        fits == fits_from(line@, 0, (0, 0), Seq::empty(), decimal_models(decimals@)),
{
    let ghost models = decimal_models(decimals@);
    let ghost b = line@;
    if decimals.len() == 0 {
        proof {
            lemma_no_decimals(b, 0, (0, 0), Seq::empty(), models);
        }
        return true;
    }
    let mut key: (usize, usize) = (0, 0);
    let mut open: Vec<(usize, usize)> = Vec::new();
    let mut i: usize = 0;
    assert(open@ =~= Seq::<(usize, usize)>::empty());
    while i < line.len()
        invariant
            b == line@,
            models == decimal_models(decimals@),
            i <= b.len(),
            key.0 <= key.1 <= b.len(),
            forall|k: int|
                0 <= k < open@.len() ==> (#[trigger] open@[k]).0 <= open@[k].1 <= b.len(),
            fits_from(b, 0, (0, 0), Seq::empty(), models) == fits_from(
                b,
                i as int,
                key,
                open@,
                models,
            ),
        decreases b.len() - i,
    {
        let c: u8 = line[i];
        if c == 0x22 {
            let end: usize = find_string_end(line, i + 1);
            let text = slice_subrange(line, i + 1, end);
            if end == line.len() {
                return check_text(slice_subrange(line, key.0, key.1), text, decimals);
            }
            if is_colon_next(line, end + 1) {
                if !check_key(text, decimals) {
                    return false;
                }
                key = (i + 1, end);
            } else if !check_text(slice_subrange(line, key.0, key.1), text, decimals) {
                return false;
            }
            i = end + 1;
        } else if c == 0x7b || c == 0x5b {
            open.push(key);
            i = i + 1;
        } else if c == 0x7d || c == 0x5d {
            let ghost before = open@;
            if let Some(outer) = open.pop() {
                proof {
                    assert(outer == before[before.len() - 1]);
                }
                key = outer;
            }
            i = i + 1;
        } else if delimiter(c) {
            i = i + 1;
        } else {
            let end: usize = find_word_end(line, i);
            if !check_text(
                slice_subrange(line, key.0, key.1),
                slice_subrange(line, i, end),
                decimals,
            ) {
                return false;
            }
            i = end;
        }
    }
    true
}

/// The number of tokens of a JSON record.
pub fn count_tokens(line: &[u8]) -> (tokens: usize)
    ensures
        tokens == tokens_from(line@, 0),
        tokens <= line@.len(),
{
    let ghost b = line@;
    let mut tokens: usize = 0;
    let mut i: usize = 0;
    while i < line.len()
        invariant
            b == line@,
            i <= b.len(),
            tokens <= i,
            tokens_from(b, 0) == tokens + tokens_from(b, i as int),
        decreases b.len() - i,
    {
        let c: u8 = line[i];
        if c == 0x22 {
            let end: usize = find_string_end(line, i + 1);
            tokens = tokens + 1;
            if end == line.len() {
                return tokens;
            }
            i = end + 1;
        } else if c == 0x7b || c == 0x5b || c == 0x7d || c == 0x5d {
            tokens = tokens + 1;
            i = i + 1;
        } else if delimiter(c) {
            i = i + 1;
        } else {
            let end: usize = find_word_end(line, i);
            tokens = tokens + 1;
            i = end;
        }
    }
    tokens
}

/// Digits end at the first byte that is none, or at the end.
pub proof fn law_digits_end_at_the_first_other_byte(t: Seq<u8>, from: int)
    requires
        0 <= from <= t.len(),
    ensures
        from <= digits_end(t, from) <= t.len(),
        forall|i: int| from <= i < digits_end(t, from) ==> 0x30 <= #[trigger] t[i] <= 0x39,
        digits_end(t, from) < t.len() ==> !(0x30 <= t[digits_end(t, from)] <= 0x39),
        from <= zeros_end(t, from) <= digits_end(t, from),
        forall|i: int| from <= i < zeros_end(t, from) ==> #[trigger] t[i] == 0x30,
        zeros_end(t, from) < t.len() ==> t[zeros_end(t, from)] != 0x30,
    decreases t.len() - from,
{
    if from < t.len() {
        if is_digit(t[from]) {
            law_digits_end_at_the_first_other_byte(t, from + 1);
        }
    }
}

/// A word ends at the first delimiter; the delimiters are white space, the comma, the colon, the quote,
/// braces and brackets.
pub proof fn law_words_end_at_delimiters(b: Seq<u8>, from: int)
    requires
        0 <= from <= b.len(),
    ensures
        from <= word_end(b, from) <= b.len(),
        forall|i: int| from <= i < word_end(b, from) ==> !is_delimiter(#[trigger] b[i]),
        word_end(b, from) < b.len() ==> is_delimiter(b[word_end(b, from)]),
        forall|x: u8| #[trigger] is_delimiter(x) <==> is_space(x) || seq![
            0x2cu8, 0x3au8, 0x22u8, 0x7bu8, 0x7du8, 0x5bu8, 0x5du8,
        ].contains(x),
    decreases b.len() - from,
{
    let marks = seq![0x2cu8, 0x3au8, 0x22u8, 0x7bu8, 0x7du8, 0x5bu8, 0x5du8];
    assert forall|x: u8| #[trigger] is_delimiter(x) <==> is_space(x) || marks.contains(x) by {
        assert(marks[0] == 0x2c && marks[1] == 0x3a && marks[2] == 0x22 && marks[3] == 0x7b
            && marks[4] == 0x7d && marks[5] == 0x5b && marks[6] == 0x5d);
    }
    if from < b.len() && !is_delimiter(b[from]) {
        law_words_end_at_delimiters(b, from + 1);
    }
}

/// A text ends at the first quote that no backslash stands before: where it holds no backslash, at the
/// first quote; and a backslash takes the byte behind it along.
pub proof fn law_texts_end_at_their_quote(b: Seq<u8>, from: int)
    requires
        0 <= from <= b.len(),
    ensures
        from <= string_end(b, from) <= b.len(),
        string_end(b, from) < b.len() ==> b[string_end(b, from)] == 0x22,
        (forall|i: int| from <= i < string_end(b, from) ==> #[trigger] b[i] != 0x5c) ==> forall|
            i: int,
        | from <= i < string_end(b, from) ==> #[trigger] b[i] != 0x22,
        from + 1 < b.len() && b[from] == 0x5c ==> string_end(b, from) == string_end(b, from + 2),
    decreases b.len() - from,
{
    if from < b.len() && b[from] != 0x22 {
        if b[from] == 0x5c && from + 1 < b.len() {
            law_texts_end_at_their_quote(b, from + 2);
        } else {
            law_texts_end_at_their_quote(b, from + 1);
        }
    }
}

/// The tokens of lines add up.
pub proof fn law_tokens_add_up(a: Seq<Seq<u8>>, b: Seq<Seq<u8>>)
    ensures
        tokens_len(a + b) == tokens_len(a) + tokens_len(b),
    decreases b.len(),
{
    if b.len() == 0 {
        assert(a + b =~= a);
    } else {
        assert((a + b).drop_last() =~= a + b.drop_last());
        law_tokens_add_up(a, b.drop_last());
    }
}

/// The digits before a number's point count without the zeros in front, and those behind it all do;
/// a sign does not count.
pub proof fn law_number_parts_are_counted(whole: Seq<u8>, fraction: Seq<u8>, zeros: int)
    requires
        forall|i: int| 0 <= i < whole.len() ==> 0x30 <= #[trigger] whole[i] <= 0x39,
        forall|i: int| 0 <= i < fraction.len() ==> 0x30 <= #[trigger] fraction[i] <= 0x39,
        0 <= zeros <= whole.len(),
        forall|i: int| 0 <= i < zeros ==> #[trigger] whole[i] == 0x30,
        zeros < whole.len() ==> whole[zeros] != 0x30,
    ensures
        number_parts(whole + seq![0x2eu8] + fraction).whole == whole.len() - zeros,
        number_parts(whole + seq![0x2eu8] + fraction).fraction == fraction.len(),
        number_parts(whole + seq![0x2eu8] + fraction).exponent is None,
{
    let t = whole + seq![0x2eu8] + fraction;
    let n = whole.len() as int;
    law_digits_end_at_the_first_other_byte(t, 0);
    assert(t[n] == 0x2e);
    assert forall|i: int| 0 <= i < n implies #[trigger] t[i] == whole[i] by {}
    assert(digits_end(t, 0) == n) by {
        let e = digits_end(t, 0);
        if e < n {
            assert(t[e] == whole[e]);
        }
        if e > n {
            assert(0x30 <= t[n] <= 0x39);
        }
    }
    assert(zeros_end(t, 0) == zeros) by {
        let z = zeros_end(t, 0);
        if z < zeros {
            assert(t[z] == whole[z]);
        }
        if z > zeros {
            assert(t[zeros] == 0x30);
            assert(t[zeros] == whole[zeros]);
        }
    }
    law_digits_end_at_the_first_other_byte(t, n + 1);
    assert(digits_end(t, n + 1) == t.len()) by {
        let e = digits_end(t, n + 1);
        if e < t.len() {
            assert(t[e] == fraction[e - n - 1]);
        }
    }
    if t.len() > 0 && n > 0 {
        assert(t[0] == whole[0]);
    }
}

/// The number of an exponent's digits.
pub open spec fn digits_value(digits: Seq<u8>) -> nat
    decreases digits.len(),
{
    if digits.len() == 0 {
        0
    } else {
        10 * digits_value(digits.drop_last()) + (digits.last() - 0x30) as nat
    }
}

proof fn lemma_exponent(t: Seq<u8>, from: int, signed: bool, start: Exponent, done: Seq<u8>)
    requires
        0 <= from <= t.len(),
        forall|i: int| from <= i < t.len() ==> 0x30 <= #[trigger] t[i] <= 0x39,
        forall|i: int| 0 <= i < done.len() ==> 0x30 <= #[trigger] done[i] <= 0x39,
        digits_value(done + t.skip(from)) <= EXPONENT_LIMIT,
        start.number == digits_value(done),
    ensures
        exponent_from(t, from, signed, start).number == digits_value(done + t.skip(from)),
        exponent_from(t, from, signed, start).negative == start.negative,
    decreases t.len() - from,
{
    if from < t.len() {
        let more = done.push(t[from]);
        assert(more + t.skip(from + 1) =~= done + t.skip(from));
        assert(more.drop_last() =~= done);
        lemma_value_grows(more, t.skip(from + 1));
        lemma_value_grows(done, seq![t[from]]);
        assert(done + seq![t[from]] =~= more);
        lemma_exponent(t, from + 1, signed, with_digit(start, t[from]), more);
    } else {
        assert(done + t.skip(from) =~= done);
    }
}

proof fn lemma_value_grows(a: Seq<u8>, b: Seq<u8>)
    ensures
        digits_value(a) <= digits_value(a + b),
    decreases b.len(),
{
    if b.len() == 0 {
        assert(a + b =~= a);
    } else {
        assert((a + b).drop_last() =~= a + b.drop_last());
        lemma_value_grows(a, b.drop_last());
    }
}

/// An exponent within the limit is the number that its digits give, with the sign in front of them.
pub proof fn law_exponents_read_as_their_digits(digits: Seq<u8>, negative: bool)
    requires
        forall|i: int| 0 <= i < digits.len() ==> 0x30 <= #[trigger] digits[i] <= 0x39,
        digits_value(digits) <= 32767,
    ensures
        ({
            let none = Exponent { negative: false, number: 0 };
            let signed = seq![
                if negative {
                    0x2du8
                } else {
                    0x2bu8
                },
            ] + digits;
            &&& exponent_from(digits, 0, false, none) == (Exponent {
                negative: false,
                number: digits_value(digits) as u32,
            })
            &&& exponent_from(signed, 0, false, none) == (Exponent {
                negative,
                number: digits_value(digits) as u32,
            })
        }),
{
    let none = Exponent { negative: false, number: 0 };
    let empty = Seq::<u8>::empty();
    assert(empty + digits.skip(0) =~= digits);
    lemma_exponent(digits, 0, false, none, empty);
    let signed = seq![
        if negative {
            0x2du8
        } else {
            0x2bu8
        },
    ] + digits;
    assert(empty + signed.skip(1) =~= digits);
    assert forall|i: int| 1 <= i < signed.len() implies 0x30 <= #[trigger] signed[i] <= 0x39 by {
        assert(signed[i] == digits[i - 1]);
    }
    lemma_exponent(signed, 1, true, Exponent { negative, number: 0 }, empty);
}

} // verus!
