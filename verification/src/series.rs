//! A named column: the physical storage for one column of one logical
//! type, and its construction from slices of dynamically-typed scalars.

use vstd::prelude::*;
use crate::dtype::DataType;
use crate::value::{
    AnyValue, PrimitiveChunked, ValueError, any_values_to_binary, any_values_to_bool,
    any_values_to_primitive, any_values_to_string, binary_slot_matches, bool_slot,
    dtype_supertype, dtype_supertype_spec, primitive_conversion_result, string_slot, strict_ok,
};

verus! {

/// The physical storage of a column.
pub enum SeriesData {
    /// A column of nulls: only its height is stored.
    Null(usize),
    Boolean(Vec<Option<bool>>),
    /// Integer, float-bits and temporal storage, tagged with the logical
    /// type.
    Primitive(DataType, Vec<Option<i128>>),
    Str(Vec<Option<String>>),
    Binary(Vec<Option<Vec<u8>>>),
}

/// A named column.
pub struct Series {
    pub name: String,
    pub data: SeriesData,
}

impl Series {
    /// The number of rows.
    pub open spec fn spec_len(&self) -> nat {
        match self.data {
            SeriesData::Null(n) => n as nat,
            SeriesData::Boolean(v) => v@.len(),
            SeriesData::Primitive(_, v) => v@.len(),
            SeriesData::Str(v) => v@.len(),
            SeriesData::Binary(v) => v@.len(),
        }
    }

    /// The logical type of the column.
    pub open spec fn spec_dtype(&self) -> DataType {
        match self.data {
            SeriesData::Null(_) => DataType::Null,
            SeriesData::Boolean(_) => DataType::Boolean,
            SeriesData::Primitive(dt, _) => dt,
            SeriesData::Str(_) => DataType::String,
            SeriesData::Binary(_) => DataType::Binary,
        }
    }

    /// The number of rows.
    pub fn len(&self) -> (r: usize)
        ensures
            r == self.spec_len(),
    {
        match &self.data {
            SeriesData::Null(n) => *n,
            SeriesData::Boolean(v) => v.len(),
            SeriesData::Primitive(_, v) => v.len(),
            SeriesData::Str(v) => v.len(),
            SeriesData::Binary(v) => v.len(),
        }
    }

    /// The logical type of the column.
    pub fn dtype(&self) -> (r: DataType)
        ensures
            r == self.spec_dtype(),
    {
        match &self.data {
            SeriesData::Null(_) => DataType::Null,
            SeriesData::Boolean(_) => DataType::Boolean,
            SeriesData::Primitive(dt, _) => *dt,
            SeriesData::Str(_) => DataType::String,
            SeriesData::Binary(_) => DataType::Binary,
        }
    }

    /// Gives the column a new name.
    pub fn rename(&mut self, name: String)
        ensures
            final(self).name == name,
            final(self).data == old(self).data,
    {
        self.name = name;
    }

    /// An empty column of the given type; a wide-offset binary type is
    /// stored as plain binary.
    pub fn new_empty(name: String, dtype: &DataType) -> (r: Series)
        ensures
            r.name == name,
            r.spec_len() == 0,
            r.spec_dtype() == *dtype || (dtype is BinaryOffset && r.spec_dtype()
                == DataType::Binary),
    {
        let data = match dtype {
            DataType::Null => SeriesData::Null(0),
            DataType::Boolean => SeriesData::Boolean(Vec::new()),
            DataType::String => SeriesData::Str(Vec::new()),
            DataType::Binary | DataType::BinaryOffset => SeriesData::Binary(Vec::new()),
            _ => SeriesData::Primitive(*dtype, Vec::new()),
        };
        Series { name, data }
    }

    /// Builds a column of the given type from scalars. In strict mode an
    /// inadmissible value is an error; otherwise it becomes null. An empty
    /// slice gives an empty column of the requested type.
    pub fn from_any_values_and_dtype(
        name: String,
        values: &Vec<AnyValue>,
        dtype: &DataType,
        strict: bool,
    ) -> (r: Result<Series, ValueError>)
        ensures
            series_conversion_result(name, values@, *dtype, strict, r),
    {
        if values.is_empty() {
            if matches!(dtype, DataType::BinaryOffset) {
                return Ok(Series { name, data: SeriesData::Binary(Vec::new()) });
            }
            return Ok(Series::new_empty(name, dtype));
        }
        match dtype {
            DataType::Null => Ok(Series { name, data: SeriesData::Null(values.len()) }),
            DataType::Boolean => {
                match any_values_to_bool(values, strict) {
                    Ok(c) => Ok(Series { name, data: SeriesData::Boolean(c.values) }),
                    Err(e) => Err(e),
                }
            },
            DataType::String => {
                match any_values_to_string(values, strict) {
                    Ok(c) => Ok(Series { name, data: SeriesData::Str(c.values) }),
                    Err(e) => Err(e),
                }
            },
            DataType::Binary | DataType::BinaryOffset => {
                match any_values_to_binary(values, strict) {
                    Ok(c) => Ok(Series { name, data: SeriesData::Binary(c.values) }),
                    Err(e) => Err(e),
                }
            },
            _ => {
                match any_values_to_primitive(values, *dtype, strict) {
                    Ok(c) => Ok(Series { name, data: SeriesData::Primitive(c.dtype, c.values) }),
                    Err(e) => Err(e),
                }
            },
        }
    }

    /// Builds a column from scalars. In strict mode the type is the first
    /// non-null value's (an all-null slice gives a null column); otherwise
    /// it is the least common type every value widens to, and the absence
    /// of one is the error.
    pub fn from_any_values(name: String, values: &Vec<AnyValue>, strict: bool) -> (r: Result<
        Series,
        ValueError,
    >)
        ensures
            strict ==> series_conversion_result(
                name,
                values@,
                first_non_null_dtype(values@),
                true,
                r,
            ),
            !strict ==> match supertype_fold(values@, DataType::Null) {
                Ok(dt) => series_conversion_result(name, values@, dt, false, r),
                Err(pair) => r == Err::<Series, ValueError>(
                    ValueError::NoSupertype { left: pair.0, right: pair.1 },
                ),
            },
    {
        if strict {
            let dtype = infer_dtype(values);
            Series::from_any_values_and_dtype(name, values, &dtype, strict)
        } else {
            match values_supertype(values) {
                Ok(dtype) => Series::from_any_values_and_dtype(name, values, &dtype, false),
                Err(e) => Err(e),
            }
        }
    }
}

/// Folds the common-type join over a scalar slice, starting from null: the
/// slice's least common column type, or the first pair of types with none.
pub open spec fn supertype_fold(values: Seq<AnyValue>, acc: DataType) -> Result<
    DataType,
    (DataType, DataType),
>
    decreases values.len(),
{
    if values.len() == 0 {
        Ok(acc)
    } else {
        match dtype_supertype_spec(acc, values[0].spec_dtype()) {
            Some(j) => supertype_fold(values.drop_first(), j),
            None => Err((acc, values[0].spec_dtype())),
        }
    }
}

/// Computes the least common column type of a scalar slice.
fn values_supertype(values: &Vec<AnyValue>) -> (r: Result<DataType, ValueError>)
    ensures
        match supertype_fold(values@, DataType::Null) {
            Ok(dt) => r == Ok::<DataType, ValueError>(dt),
            Err(pair) => r == Err::<DataType, ValueError>(
                ValueError::NoSupertype { left: pair.0, right: pair.1 },
            ),
        },
{
    let n = values.len();
    let mut acc = DataType::Null;
    let mut i: usize = 0;
    proof {
        assert(values@.skip(0) =~= values@);
    }
    while i < n
        invariant
            i <= n,
            n == values@.len(),
            supertype_fold(values@, DataType::Null) == supertype_fold(
                values@.skip(i as int),
                acc,
            ),
        decreases n - i,
    {
        proof {
            let t = values@.skip(i as int);
            assert(t[0] == values@[i as int]);
            assert(t.drop_first() =~= values@.skip(i as int + 1));
        }
        match dtype_supertype(&acc, &values[i].dtype()) {
            Some(j) => {
                acc = j;
            },
            None => {
                return Err(ValueError::NoSupertype { left: acc, right: values[i].dtype() });
            },
        }
        i += 1;
    }
    proof {
        assert(values@.skip(n as int).len() == 0);
    }
    Ok(acc)
}

/// The inferred type of a scalar slice: the type of its first non-null
/// value, or null when there is none.
pub open spec fn first_non_null_dtype(values: Seq<AnyValue>) -> DataType
    decreases values.len(),
{
    if values.len() == 0 {
        DataType::Null
    } else if !(values[0] is Null) {
        values[0].spec_dtype()
    } else {
        first_non_null_dtype(values.drop_first())
    }
}

/// Finds the type of the first non-null value.
fn infer_dtype(values: &Vec<AnyValue>) -> (r: DataType)
    ensures
        r == first_non_null_dtype(values@),
{
    let n = values.len();
    let mut i: usize = 0;
    proof {
        assert(values@.skip(0) =~= values@);
    }
    while i < n
        invariant
            i <= n,
            n == values@.len(),
            first_non_null_dtype(values@) == first_non_null_dtype(values@.skip(i as int)),
        decreases n - i,
    {
        if !values[i].is_null() {
            proof {
                assert(values@.skip(i as int)[0] == values@[i as int]);
            }
            return values[i].dtype();
        }
        proof {
            let s = values@.skip(i as int);
            assert(s[0] == values@[i as int]);
            assert(s.drop_first() =~= values@.skip(i as int + 1));
        }
        i += 1;
    }
    proof {
        assert(values@.skip(n as int).len() == 0);
    }
    DataType::Null
}

/// Exactly what building a column of `dtype` from `values` returns: per
/// slot the admitted value or null, the requested name and type, and —
/// strict mode only — the first inadmissible value as a schema-mismatch
/// error. A wide-offset binary column stores the same bytes as a plain
/// one.
pub open spec fn series_conversion_result(
    name: String,
    values: Seq<AnyValue>,
    dtype: DataType,
    strict: bool,
    r: Result<Series, ValueError>,
) -> bool {
    match r {
        Ok(s) => {
            &&& s.name == name
            &&& s.spec_len() == values.len()
            &&& (values.len() == 0 ==> s.spec_dtype() == dtype || (dtype is BinaryOffset
                && s.spec_dtype() == DataType::Binary))
            &&& (values.len() > 0 ==> match dtype {
                DataType::Null => s.data matches SeriesData::Null(n) && n == values.len(),
                DataType::Boolean => s.data matches SeriesData::Boolean(v) && (forall|i: int|
                    0 <= i < values.len() ==> v@[i] == bool_slot(#[trigger] values[i])) && (strict
                    ==> forall|i: int|
                    0 <= i < values.len() ==> (values[i] is Null || #[trigger] values[i]
                        is Boolean)),
                DataType::String => s.data matches SeriesData::Str(v) && (forall|i: int|
                    0 <= i < values.len() ==> v@[i] == string_slot(#[trigger] values[i])) && (
                strict ==> forall|i: int|
                    0 <= i < values.len() ==> (values[i] is Null || #[trigger] values[i]
                        is String)),
                DataType::Binary | DataType::BinaryOffset => s.data matches SeriesData::Binary(v)
                    && (forall|i: int|
                    0 <= i < values.len() ==> binary_slot_matches(#[trigger] values[i], v@[i]))
                    && (strict ==> forall|i: int|
                    0 <= i < values.len() ==> (values[i] is Null || #[trigger] values[i]
                        is Binary)),
                _ => s.data matches SeriesData::Primitive(dt, v) && primitive_conversion_result(
                    values,
                    dtype,
                    strict,
                    Ok(PrimitiveChunked { dtype: dt, values: v }),
                ),
            })
        },
        Err(e) => {
            &&& strict
            &&& values.len() > 0
            &&& match dtype {
                DataType::Null => false,
                DataType::Boolean => exists|k: int|
                    0 <= k < values.len() && !(values[k] is Null || #[trigger] values[k]
                        is Boolean) && (forall|j: int|
                        0 <= j < k ==> (values[j] is Null || #[trigger] values[j] is Boolean))
                        && e == (ValueError::SchemaMismatch {
                        expected: DataType::Boolean,
                        found: values[k].spec_dtype(),
                    }),
                DataType::String => exists|k: int|
                    0 <= k < values.len() && !(values[k] is Null || #[trigger] values[k]
                        is String) && (forall|j: int|
                        0 <= j < k ==> (values[j] is Null || #[trigger] values[j] is String))
                        && e == (ValueError::SchemaMismatch {
                        expected: DataType::String,
                        found: values[k].spec_dtype(),
                    }),
                DataType::Binary | DataType::BinaryOffset => exists|k: int|
                    0 <= k < values.len() && !(values[k] is Null || #[trigger] values[k]
                        is Binary) && (forall|j: int|
                        0 <= j < k ==> (values[j] is Null || #[trigger] values[j] is Binary))
                        && e == (ValueError::SchemaMismatch {
                        expected: DataType::Binary,
                        found: values[k].spec_dtype(),
                    }),
                _ => exists|k: int|
                    0 <= k < values.len() && !strict_ok(dtype, #[trigger] values[k]) && (forall|
                        j: int,
                    |
                        0 <= j < k ==> strict_ok(dtype, #[trigger] values[j])) && e == (
                    ValueError::SchemaMismatch {
                        expected: dtype,
                        found: values[k].spec_dtype(),
                    }),
            }
        },
    }
}

} // verus!
