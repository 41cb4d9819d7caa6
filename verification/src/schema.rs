//! Named, typed columns.

use vstd::prelude::*;

use crate::text;

verus! {

/// A column of a schema.
#[derive(Debug)]
pub struct Field<T> {
    pub name: String,
    pub data_type: T,
    pub nullable: bool,
}

/// A column of a schema.
#[verifier::ext_equal]
pub struct FieldModel<T> {
    pub name: Seq<char>,
    pub data_type: T,
    pub nullable: bool,
}

impl<T> View for Field<T> {
    type V = FieldModel<T>;

    open spec fn view(&self) -> FieldModel<T> {
        FieldModel { name: self.name@, data_type: self.data_type, nullable: self.nullable }
    }
}

/// The columns of a schema.
pub open spec fn fields_model<T>(fields: Seq<Field<T>>) -> Seq<FieldModel<T>> {
    fields.map_values(|f: Field<T>| f@)
}

/// The names of columns.
pub open spec fn names<T>(fields: Seq<FieldModel<T>>) -> Seq<Seq<char>> {
    fields.map_values(|f: FieldModel<T>| f.name)
}

/// The position of the first column with a name.
pub open spec fn is_index_of(names: Seq<Seq<char>>, name: Seq<char>, index: Option<usize>) -> bool {
    match index {
        Some(i) => i < names.len() && names[i as int] == name && forall|j: int|
            0 <= j < i ==> names[j] != name,
        None => !names.contains(name),
    }
}

impl<T: Copy> Field<T> {
    /// A column.
    pub fn new(name: &str, data_type: T, nullable: bool) -> (field: Self)
        ensures
            field@ == (FieldModel { name: name@, data_type, nullable }),
    {
        Field { name: name.to_owned(), data_type, nullable }
    }

    /// The same column once more.
    pub fn copy(&self) -> (field: Self)
        ensures
            field@ == self@,
    {
        Field { name: self.name.clone(), data_type: self.data_type, nullable: self.nullable }
    }
}

/// The position of the first column with a name.
pub fn index_of<T>(fields: &[Field<T>], name: &str) -> (index: Option<usize>)
    ensures
        is_index_of(names(fields_model(fields@)), name@, index),
{
    let ghost all = names(fields_model(fields@));
    let mut i: usize = 0;
    while i < fields.len()
        invariant
            i <= fields@.len(),
            all == names(fields_model(fields@)),
            forall|j: int| 0 <= j < i ==> #[trigger] all[j] != name@,
        decreases fields@.len() - i,
    {
        assert(all[i as int] == fields@[i as int].name@);
        if text::str_eq(fields[i].name.as_str(), name) {
            return Some(i);
        }
        i = i + 1;
    }
    None
}

/// The columns at the given positions, in the order of the positions.
pub open spec fn projected<T>(fields: Seq<FieldModel<T>>, projection: Seq<usize>) -> Seq<
    FieldModel<T>,
> {
    projection.map_values(|i: usize| fields[i as int])
}

/// The columns at the given positions; a position without a column is the error.
pub fn project<T: Copy>(fields: &[Field<T>], projection: &[usize]) -> (result: Result<
    Vec<Field<T>>,
    usize,
>)
    ensures
        match result {
            Ok(out) => {
                &&& forall|k: int| 0 <= k < projection@.len() ==> projection@[k] < fields@.len()
                &&& fields_model(out@) == projected(fields_model(fields@), projection@)
            },
            Err(index) => index >= fields@.len() && exists|k: int|
                0 <= k < projection@.len() && #[trigger] projection@[k] == index && forall|j: int|
                    0 <= j < k ==> projection@[j] < fields@.len(),
        },
{
    let mut out: Vec<Field<T>> = Vec::new();
    let mut i: usize = 0;
    while i < projection.len()
        invariant
            i <= projection@.len(),
            out@.len() == i,
            forall|k: int| 0 <= k < i ==> projection@[k] < fields@.len(),
            forall|k: int|
                0 <= k < i ==> (#[trigger] out@[k])@ == fields_model(
                    fields@,
                )[projection@[k] as int],
        decreases projection@.len() - i,
    {
        let index: usize = projection[i];
        if index >= fields.len() {
            assert(projection@[i as int] == index);
            return Err(index);
        }
        out.push(fields[index].copy());
        i = i + 1;
    }
    assert(fields_model(out@) =~= projected(fields_model(fields@), projection@));
    Ok(out)
}

/// A name has one first position at most.
pub proof fn lemma_one_index()
    ensures
        forall|names: Seq<Seq<char>>, name: Seq<char>, at: Option<usize>, found: Option<usize>|
            #[trigger] is_index_of(names, name, at) && #[trigger] is_index_of(names, name, found)
                ==> at == found,
{
    assert forall|names: Seq<Seq<char>>, name: Seq<char>, at: Option<usize>, found: Option<usize>|
        #[trigger] is_index_of(names, name, at) && #[trigger] is_index_of(
            names,
            name,
            found,
        ) implies at == found by {
        match (at, found) {
            (Some(a), Some(b)) => {
                if a < b {
                    assert(names[a as int] != name);
                } else if b < a {
                    assert(names[b as int] != name);
                }
            },
            (Some(a), None) => {
                assert(names.contains(names[a as int]));
            },
            (None, Some(b)) => {
                assert(names.contains(names[b as int]));
            },
            (None, None) => {},
        }
    }
}

} // verus!
