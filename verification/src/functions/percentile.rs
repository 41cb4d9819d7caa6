//! The discrete percentiles of a column.

use vstd::prelude::*;

use crate::functions::kll::Double;
use crate::sorting;
use crate::sorting::stable_sorted;
use crate::text;
use crate::text::decimal;

verus! {

/// A data type, as far as percentiles depend on it. Types that they do not take are told by their
/// text.
#[derive(Debug)]
pub enum ArgumentType {
    Numeric,
    Text,
    /// A list, with the type of its elements.
    List(ElementType),
    Other(String),
}

/// The type of the elements of a list.
#[derive(Debug)]
pub enum ElementType {
    Numeric,
    Null,
    Other(String),
}

/// The type that an argument is turned into.
#[derive(Debug, Clone, Copy, PartialEq, Eq, Structural)]
pub enum CoercedType {
    Float64,
    ListOfFloat64,
}

/// Why percentiles are refused.
#[derive(Debug)]
pub enum PercentileError {
    ArgumentCount { count: usize },
    OrderByType { data_type: String },
    PercentileElementType { data_type: String },
    PercentileType { data_type: String },
    Distinct,
}

impl PercentileError {
    /// The message for the user.
    pub open spec fn text(self) -> Seq<char> {
        match self {
            PercentileError::ArgumentCount { count } => "percentile_disc expects 2 arguments, got "@
                + decimal(count as nat),
            PercentileError::OrderByType { data_type } =>
                "percentile_disc: ORDER BY column must be numeric or string, got "@ + data_type@,
            PercentileError::PercentileElementType { data_type } =>
                "percentile_disc: percentile array elements must be numeric, got "@ + data_type@,
            PercentileError::PercentileType { data_type } =>
                "percentile_disc: percentile must be numeric, got "@ + data_type@,
            PercentileError::Distinct =>
                "percentile_disc does not support DISTINCT with WITHIN GROUP"@,
        }
    }

    /// The message for the user.
    pub fn message(&self) -> (out: String)
        ensures
            out@ == self.text(),
    {
        match self {
            PercentileError::ArgumentCount { count } => {
                let mut out = "percentile_disc expects 2 arguments, got ".to_owned();
                text::push_decimal(&mut out, *count as u64);
                out
            },
            PercentileError::OrderByType { data_type } => text::concat(
                "percentile_disc: ORDER BY column must be numeric or string, got ",
                data_type.as_str(),
            ),
            PercentileError::PercentileElementType { data_type } => text::concat(
                "percentile_disc: percentile array elements must be numeric, got ",
                data_type.as_str(),
            ),
            PercentileError::PercentileType { data_type } => text::concat(
                "percentile_disc: percentile must be numeric, got ",
                data_type.as_str(),
            ),
            PercentileError::Distinct => {
                "percentile_disc does not support DISTINCT with WITHIN GROUP".to_owned()
            },
        }
    }
}

/// The text of a type that is no number and no text.
pub open spec fn type_text(argument: ArgumentType, list_text: Seq<char>) -> Seq<char> {
    match argument {
        ArgumentType::Other(t) => t@,
        _ => list_text,
    }
}

/// Whether a column of a type can be ordered for percentiles.
pub open spec fn can_order(argument: ArgumentType) -> bool {
    argument is Numeric || argument is Text
}

/// The types that the arguments are turned into. `list_text` is the text of the first argument's
/// type where that is a list.
pub fn coerce_types(arguments: &[ArgumentType], list_text: &str) -> (result: Result<
    (CoercedType, CoercedType),
    PercentileError,
>)
    ensures
        if arguments@.len() != 2 {
            result matches Err(e) && e == (PercentileError::ArgumentCount {
                count: arguments@.len() as usize,
            })
        } else if !can_order(arguments@[0]) {
            result matches Err(e) && e matches PercentileError::OrderByType { data_type }
                && data_type@ == type_text(arguments@[0], list_text@)
        } else {
            match arguments@[1] {
                ArgumentType::Numeric | ArgumentType::Text => result == Ok::<
                    (CoercedType, CoercedType),
                    PercentileError,
                >((CoercedType::Float64, CoercedType::Float64)),
                ArgumentType::List(element) => match element {
                    ElementType::Other(t) => result matches Err(e)
                        && e matches PercentileError::PercentileElementType { data_type }
                        && data_type@ == t@,
                    _ => result == Ok::<(CoercedType, CoercedType), PercentileError>(
                        (CoercedType::Float64, CoercedType::ListOfFloat64),
                    ),
                },
                ArgumentType::Other(t) => result matches Err(e)
                    && e matches PercentileError::PercentileType { data_type } && data_type@ == t@,
            }
        },
{
    if arguments.len() != 2 {
        return Err(PercentileError::ArgumentCount { count: arguments.len() });
    }
    match &arguments[0] {
        ArgumentType::Numeric => {},
        ArgumentType::Text => {},
        ArgumentType::List(_) => {
            return Err(PercentileError::OrderByType { data_type: list_text.to_owned() });
        },
        ArgumentType::Other(t) => {
            return Err(PercentileError::OrderByType { data_type: t.as_str().to_owned() });
        },
    }
    match &arguments[1] {
        ArgumentType::Numeric => Ok((CoercedType::Float64, CoercedType::Float64)),
        ArgumentType::Text => Ok((CoercedType::Float64, CoercedType::Float64)),
        ArgumentType::List(element) => match element {
            ElementType::Other(t) => Err(
                PercentileError::PercentileElementType { data_type: t.as_str().to_owned() },
            ),
            _ => Ok((CoercedType::Float64, CoercedType::ListOfFloat64)),
        },
        ArgumentType::Other(t) => Err(
            PercentileError::PercentileType { data_type: t.as_str().to_owned() },
        ),
    }
}

/// How percentiles are gathered.
#[derive(Debug, Clone, Copy, PartialEq, Eq, Structural)]
pub enum PercentileForm {
    /// One percentile of the column's own type.
    Single,
    /// A list of percentiles.
    Multiple,
}

/// Decides how percentiles are gathered.
pub fn percentile_form(is_distinct: bool, list_of_percentiles: bool) -> (result: Result<
    PercentileForm,
    PercentileError,
>)
    ensures
        if is_distinct {
            result == Err::<PercentileForm, PercentileError>(PercentileError::Distinct)
        } else if list_of_percentiles {
            result == Ok::<PercentileForm, PercentileError>(PercentileForm::Multiple)
        } else {
            result == Ok::<PercentileForm, PercentileError>(PercentileForm::Single)
        },
{
    if is_distinct {
        Err(PercentileError::Distinct)
    } else if list_of_percentiles {
        Ok(PercentileForm::Multiple)
    } else {
        Ok(PercentileForm::Single)
    }
}

/// Whether the values of groups can be gathered together: one percentile, of all values.
pub fn groups_supported(is_distinct: bool, list_of_percentiles: bool) -> (supported: bool)
    ensures
        supported == (!is_distinct && !list_of_percentiles),
{
    !is_distinct && !list_of_percentiles
}

/// Gathers the values of a column for a list of percentiles.
#[derive(Debug)]
pub struct MultiPercentileDisc {
    values: Vec<Double>,
}

impl View for MultiPercentileDisc {
    type V = Seq<Double>;

    closed spec fn view(&self) -> Seq<Double> {
        self.values@
    }
}

/// The values that are not null.
pub open spec fn present(values: Seq<Option<Double>>) -> Seq<Double>
    decreases values.len(),
{
    if values.len() == 0 {
        Seq::empty()
    } else {
        match values.last() {
            Some(v) => present(values.drop_last()).push(v),
            None => present(values.drop_last()),
        }
    }
}

impl MultiPercentileDisc {
    /// No values.
    pub fn new() -> (acc: Self)
        ensures
            acc@ == Seq::<Double>::empty(),
    {
        MultiPercentileDisc { values: Vec::new() }
    }

    /// Takes the values of a batch that are not null.
    pub fn update_batch(&mut self, batch: &[Option<Double>])
        ensures
            final(self)@ == old(self)@ + present(batch@),
    {
        let ghost start = self.values@;
        let mut i: usize = 0;
        proof {
            assert(batch@.take(0) =~= Seq::<Option<Double>>::empty());
            assert(start + present(batch@.take(0)) =~= start);
        }
        while i < batch.len()
            invariant
                i <= batch@.len(),
                self.values@ == start + present(batch@.take(i as int)),
            decreases batch@.len() - i,
        {
            proof {
                assert(batch@.take(i + 1).drop_last() =~= batch@.take(i as int));
                assert(batch@.take(i + 1).last() == batch@[i as int]);
            }
            match batch[i] {
                Some(v) => {
                    self.values.push(v);
                    assert(self.values@ =~= start + present(batch@.take(i + 1)));
                },
                None => {},
            }
            i = i + 1;
        }
        assert(batch@.take(i as int) =~= batch@);
    }

    /// The number of values.
    pub fn len(&self) -> (n: usize)
        ensures
            n == self@.len(),
    {
        self.values.len()
    }

    /// The values at positions in order, and no values are left. There is none where there are no
    /// values or no positions.
    pub fn evaluate(&mut self, positions: &[usize]) -> (result: Option<Vec<Double>>)
        requires
            forall|i: int|
                0 <= i < positions@.len() && old(self)@.len() > 0 ==> (#[trigger] positions@[i])
                    < old(self)@.len(),
        ensures
            match result {
                Some(picked) => {
                    &&& old(self)@.len() > 0 && positions@.len() > 0
                    &&& picked@ == positions@.map_values(
                        |p: usize| stable_sorted(old(self)@)[p as int],
                    )
                    &&& final(self)@ == Seq::<Double>::empty()
                },
                None => (old(self)@.len() == 0 || positions@.len() == 0) && final(self)@
                    == old(self)@,
            },
    {
        if self.values.len() == 0 || positions.len() == 0 {
            return None;
        }
        let ghost start = self.values@;
        let mut values: Vec<Double> = Vec::new();
        core::mem::swap(&mut values, &mut self.values);
        proof {
            sorting::lemma_stable_sorted(start);
        }
        let sorted = sorting::sort(values);
        let mut picked: Vec<Double> = Vec::new();
        let mut i: usize = 0;
        while i < positions.len()
            invariant
                i <= positions@.len(),
                sorted@ == stable_sorted(start),
                sorted@.len() == start.len(),
                forall|k: int| 0 <= k < positions@.len() ==> (#[trigger] positions@[k]) < start.len(),
                picked@.len() == i,
                forall|k: int|
                    0 <= k < i ==> #[trigger] picked@[k] == stable_sorted(
                        start,
                    )[positions@[k] as int],
            decreases positions@.len() - i,
        {
            assert(positions@[i as int] < start.len());
            picked.push(sorted[positions[i]]);
            i = i + 1;
        }
        assert(picked@ =~= positions@.map_values(|p: usize| stable_sorted(start)[p as int]));
        Some(picked)
    }
}

/// The values of a column that are there, in their order.
pub proof fn law_missing_values_are_left_out(a: Seq<Option<Double>>, b: Seq<Option<Double>>)
    ensures
        present(a + b) == present(a) + present(b),
        forall|v: Double| #[trigger] present(seq![Some(v)]) == seq![v],
        present(seq![None]) == Seq::<Double>::empty(),
    decreases b.len(),
{
    let missing = seq![None::<Double>];
    assert(missing.drop_last() =~= Seq::<Option<Double>>::empty());
    assert(missing.last() is None);
    assert(present(missing) == present(missing.drop_last()));
    assert forall|v: Double| #[trigger] present(seq![Some(v)]) == seq![v] by {
        assert(seq![Some(v)].drop_last() =~= Seq::<Option<Double>>::empty());
        assert(present(Seq::<Option<Double>>::empty()).push(v) =~= seq![v]);
    }
    if b.len() == 0 {
        assert(a + b =~= a);
        assert(present(a) + present(b) =~= present(a));
    } else {
        assert((a + b).drop_last() =~= a + b.drop_last());
        law_missing_values_are_left_out(a, b.drop_last());
        if b.last() is Some {
            assert(present(a) + present(b.drop_last()).push(b.last()->0) =~= (present(a) + present(
                b.drop_last(),
            )).push(b.last()->0));
        }
    }
}

} // verus!
