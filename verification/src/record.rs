//! Records of a delimited table: reading their fields and finding columns.

use crate::binary64::{Binary64, NEG_INFINITY_BITS, ONE_BITS};
use csv::StringRecord;
use vstd::prelude::*;

verus! {

#[verifier::external_type_specification]
#[verifier::external_body]
pub struct ExStringRecord(csv::StringRecord);

/// The fields that a record holds, in order, each as its characters.
pub uninterp spec fn record_fields(record: StringRecord) -> Seq<Seq<char>>;

/// `csv::StringRecord::len`: the number of fields in the record.
#[verifier::external_body]
pub(crate) fn field_count(record: &StringRecord) -> (out: usize)
    ensures
        out == record_fields(*record).len(),
{
    record.len()
}

/// `csv::StringRecord::get`: the field at position `i`, or nothing where the
/// record has no such position.
#[verifier::external_body]
pub(crate) fn field<'a>(record: &'a StringRecord, i: usize) -> (out: Option<&'a str>)
    ensures
        i < record_fields(*record).len() ==> out.is_some() && out.unwrap()@
            == record_fields(*record)[i as int],
        i >= record_fields(*record).len() ==> out.is_none(),
{
    record.get(i)
}

/// `str::eq`: two strings are equal when they hold the same characters.
#[verifier::external_body]
pub(crate) fn same_text(a: &str, b: &str) -> (out: bool)
    ensures
        out == (a@ == b@),
{
    a == b
}

/// Whether `i` is the first position of `fields` that holds `name`.
pub open spec fn first_position(fields: Seq<Seq<char>>, name: Seq<char>, i: int) -> bool {
    &&& 0 <= i < fields.len()
    &&& fields[i] == name
    &&& forall|j: int| 0 <= j < i ==> fields[j] != name
}

/// Whether `name` occurs among `fields`.
pub open spec fn names_column(fields: Seq<Seq<char>>, name: Seq<char>) -> bool {
    exists|j: int| 0 <= j < fields.len() && fields[j] == name
}

/// The position of the column that the header calls `name`: the first one,
/// where several carry the name, and nothing where none does.
pub fn resolve_column(header: &StringRecord, name: &str) -> (out: Option<usize>)
    ensures
        match out {
            Some(i) => first_position(record_fields(*header), name@, i as int),
            None => !names_column(record_fields(*header), name@),
        },
{
    let n: usize = field_count(header);
    let mut i: usize = 0;
    while i < n
        invariant
            i <= n,
            n == record_fields(*header).len(),
            forall|j: int| 0 <= j < i ==> record_fields(*header)[j] != name@,
        decreases n - i,
    {
        match field(header, i) {
            Some(text) => {
                if same_text(text, name) {
                    return Some(i);
                }
            },
            None => {},
        }
        i += 1;
    }
    None
}

/// The columns that a run reads: the weight column, if any, and the
/// identifier column.
#[derive(Clone, Copy, Debug, PartialEq, Eq, Structural)]
pub struct Columns {
    pub weight: Option<usize>,
    pub id: usize,
}

/// A column that was asked for by name and that the header does not have.
#[derive(Clone, Copy, Debug, PartialEq, Eq, Structural)]
pub enum ColumnError {
    /// The weight column is not in the header.
    WeightNotFound,
    /// The identifier column is not in the header.
    IdNotFound,
}

/// What `resolve_columns` is to return: each column that is named must be
/// in the header, the weight column being looked at first; without a name
/// there is no weight column, and the identifier column is the first one.
pub open spec fn columns_of(
    fields: Seq<Seq<char>>,
    weight: Option<Seq<char>>,
    id: Option<Seq<char>>,
    out: Result<Columns, ColumnError>,
) -> bool {
    if weight is Some && !names_column(fields, weight.unwrap()) {
        out == Err::<Columns, ColumnError>(ColumnError::WeightNotFound)
    } else if id is Some && !names_column(fields, id.unwrap()) {
        out == Err::<Columns, ColumnError>(ColumnError::IdNotFound)
    } else {
        &&& out is Ok
        &&& match weight {
            Some(name) => out.unwrap().weight is Some && first_position(
                fields,
                name,
                out.unwrap().weight.unwrap() as int,
            ),
            None => out.unwrap().weight is None,
        }
        &&& match id {
            Some(name) => first_position(fields, name, out.unwrap().id as int),
            None => out.unwrap().id == 0,
        }
    }
}

/// Finds the columns of a run in the header, before any row is read.
pub fn resolve_columns(header: &StringRecord, weight: Option<&str>, id: Option<&str>) -> (out:
    Result<Columns, ColumnError>)
    ensures
        columns_of(
            record_fields(*header),
            match weight {
                Some(name) => Some(name@),
                None => None,
            },
            match id {
                Some(name) => Some(name@),
                None => None,
            },
            out,
        ),
{
    let weight_column = match weight {
        Some(name) => match resolve_column(header, name) {
            Some(i) => Some(i),
            None => {
                return Err(ColumnError::WeightNotFound);
            },
        },
        None => None,
    };
    let id_column = match id {
        Some(name) => match resolve_column(header, name) {
            Some(i) => i,
            None => {
                return Err(ColumnError::IdNotFound);
            },
        },
        None => 0,
    };
    Ok(Columns { weight: weight_column, id: id_column })
}

/// Where the weight of a row comes from.
#[derive(Clone, Copy, Debug)]
pub enum WeightSource<'a> {
    /// No weight column is configured: every row weighs one.
    Uniform,
    /// The text of the row's weight field, still to be read as a number.
    Field(&'a str),
    /// A weight column is configured and the row is too short to have it:
    /// the row must never be selected.
    Missing,
}

impl<'a> WeightSource<'a> {
    /// The weight, where it is known without reading a number: one for a
    /// uniform weight, and negative infinity, which no number is below, for a
    /// missing one.
    pub fn settled(&self) -> (out: Option<Binary64>)
        ensures
            match *self {
                WeightSource::Uniform => out == Some(Binary64 { bits: ONE_BITS }),
                WeightSource::Field(_) => out is None,
                WeightSource::Missing => out == Some(Binary64 { bits: NEG_INFINITY_BITS }),
            },
    {
        match self {
            WeightSource::Uniform => Some(Binary64::one()),
            WeightSource::Field(_) => None,
            WeightSource::Missing => Some(Binary64::negative_infinity()),
        }
    }
}

/// Picks the weight of a record out of it: the uniform weight without a
/// weight column, else the text at that column, or the note that it is
/// missing.
pub fn get_weight<'a>(weight_column: Option<usize>, record: &'a StringRecord) -> (out:
    WeightSource<'a>)
    ensures
        match weight_column {
            None => out is Uniform,
            Some(i) => if i < record_fields(*record).len() {
                out matches WeightSource::Field(text) && text@ == record_fields(*record)[i as int]
            } else {
                out is Missing
            },
        },
{
    match weight_column {
        Some(i) => {
            match field(record, i) {
                Some(text) => WeightSource::Field(text),
                None => WeightSource::Missing,
            }
        },
        None => WeightSource::Uniform,
    }
}

} // verus!
