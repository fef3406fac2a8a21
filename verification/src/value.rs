//! The columnar value model: a dynamically-typed scalar (`AnyValue`), typed
//! physical columns, and the strict/non-strict conversion of scalar slices
//! into columns. Floating-point scalars are carried as their raw bit
//! patterns; this crate never computes with them.

use vstd::prelude::*;
use crate::dtype::{DataType, TimeUnit};

verus! {

/// A dynamically-typed scalar value.
pub enum AnyValue {
    Null,
    Boolean(bool),
    Int8(i8),
    Int16(i16),
    Int32(i32),
    Int64(i64),
    UInt8(u8),
    UInt16(u16),
    UInt32(u32),
    UInt64(u64),
    /// A 32-bit float, carried as its raw bit pattern.
    Float32(u32),
    /// A 64-bit float, carried as its raw bit pattern.
    Float64(u64),
    String(String),
    Binary(Vec<u8>),
    /// Days since the epoch.
    Date(i32),
    /// Nanoseconds since midnight.
    Time(i64),
    /// Ticks since the epoch, in the given unit.
    Datetime(i64, TimeUnit),
    /// A span of ticks in the given unit.
    Duration(i64, TimeUnit),
}

impl AnyValue {
    /// The logical type of the value.
    pub open spec fn spec_dtype(&self) -> DataType {
        match *self {
            AnyValue::Null => DataType::Null,
            AnyValue::Boolean(_) => DataType::Boolean,
            AnyValue::Int8(_) => DataType::Int8,
            AnyValue::Int16(_) => DataType::Int16,
            AnyValue::Int32(_) => DataType::Int32,
            AnyValue::Int64(_) => DataType::Int64,
            AnyValue::UInt8(_) => DataType::UInt8,
            AnyValue::UInt16(_) => DataType::UInt16,
            AnyValue::UInt32(_) => DataType::UInt32,
            AnyValue::UInt64(_) => DataType::UInt64,
            AnyValue::Float32(_) => DataType::Float32,
            AnyValue::Float64(_) => DataType::Float64,
            AnyValue::String(_) => DataType::String,
            AnyValue::Binary(_) => DataType::Binary,
            AnyValue::Date(_) => DataType::Date,
            AnyValue::Time(_) => DataType::Time,
            AnyValue::Datetime(_, tu) => DataType::Datetime(tu),
            AnyValue::Duration(_, tu) => DataType::Duration(tu),
        }
    }

    #[verifier::when_used_as_spec(spec_dtype)]
    pub fn dtype(&self) -> (r: DataType)
        ensures
            r == self.spec_dtype(),
    {
        match self {
            AnyValue::Null => DataType::Null,
            AnyValue::Boolean(_) => DataType::Boolean,
            AnyValue::Int8(_) => DataType::Int8,
            AnyValue::Int16(_) => DataType::Int16,
            AnyValue::Int32(_) => DataType::Int32,
            AnyValue::Int64(_) => DataType::Int64,
            AnyValue::UInt8(_) => DataType::UInt8,
            AnyValue::UInt16(_) => DataType::UInt16,
            AnyValue::UInt32(_) => DataType::UInt32,
            AnyValue::UInt64(_) => DataType::UInt64,
            AnyValue::Float32(_) => DataType::Float32,
            AnyValue::Float64(_) => DataType::Float64,
            AnyValue::String(_) => DataType::String,
            AnyValue::Binary(_) => DataType::Binary,
            AnyValue::Date(_) => DataType::Date,
            AnyValue::Time(_) => DataType::Time,
            AnyValue::Datetime(_, tu) => DataType::Datetime(*tu),
            AnyValue::Duration(_, tu) => DataType::Duration(*tu),
        }
    }

    /// True only of the null value.
    pub open spec fn spec_is_null(&self) -> bool {
        *self is Null
    }

    #[verifier::when_used_as_spec(spec_is_null)]
    pub fn is_null(&self) -> (r: bool)
        ensures
            r == self.spec_is_null(),
    {
        matches!(self, AnyValue::Null)
    }

    /// True of the integer-typed values.
    pub open spec fn spec_is_integer(&self) -> bool {
        int_value(*self) is Some
    }

    #[verifier::when_used_as_spec(spec_is_integer)]
    pub fn is_integer(&self) -> (r: bool)
        ensures
            r == self.spec_is_integer(),
    {
        matches!(
            self,
            AnyValue::Int8(_) | AnyValue::Int16(_) | AnyValue::Int32(_) | AnyValue::Int64(_)
                | AnyValue::UInt8(_) | AnyValue::UInt16(_) | AnyValue::UInt32(_)
                | AnyValue::UInt64(_)
        )
    }
}

/// The mathematical integer a value carries, for the integer variants.
pub open spec fn int_value(av: AnyValue) -> Option<i128> {
    match av {
        AnyValue::Int8(v) => Some(v as i128),
        AnyValue::Int16(v) => Some(v as i128),
        AnyValue::Int32(v) => Some(v as i128),
        AnyValue::Int64(v) => Some(v as i128),
        AnyValue::UInt8(v) => Some(v as i128),
        AnyValue::UInt16(v) => Some(v as i128),
        AnyValue::UInt32(v) => Some(v as i128),
        AnyValue::UInt64(v) => Some(v as i128),
        _ => None,
    }
}

/// The physical payload stored for a value admitted into a primitive
/// column: the integer itself, float bits, or temporal ticks.
pub open spec fn physical_payload(av: AnyValue) -> Option<i128> {
    match av {
        AnyValue::Float32(bits) => Some(bits as i128),
        AnyValue::Float64(bits) => Some(bits as i128),
        AnyValue::Date(v) => Some(v as i128),
        AnyValue::Time(v) => Some(v as i128),
        AnyValue::Datetime(v, _) => Some(v as i128),
        AnyValue::Duration(v, _) => Some(v as i128),
        _ => int_value(av),
    }
}

/// The smallest value an integer column of this type can hold.
pub open spec fn dtype_min(dtype: DataType) -> i128 {
    match dtype {
        DataType::Int8 => i8::MIN as i128,
        DataType::Int16 => i16::MIN as i128,
        DataType::Int32 => i32::MIN as i128,
        DataType::Int64 => i64::MIN as i128,
        _ => 0,
    }
}

/// The largest value an integer column of this type can hold.
pub open spec fn dtype_max(dtype: DataType) -> i128 {
    match dtype {
        DataType::Int8 => i8::MAX as i128,
        DataType::Int16 => i16::MAX as i128,
        DataType::Int32 => i32::MAX as i128,
        DataType::Int64 => i64::MAX as i128,
        DataType::UInt8 => u8::MAX as i128,
        DataType::UInt16 => u16::MAX as i128,
        DataType::UInt32 => u32::MAX as i128,
        DataType::UInt64 => u64::MAX as i128,
        _ => 0,
    }
}

/// Whether an integer fits the given integer column type.
pub open spec fn in_dtype_range(dtype: DataType, v: i128) -> bool {
    dtype_min(dtype) <= v && v <= dtype_max(dtype)
}

/// Whether a value is admissible, in strict mode, for a primitive column
/// of the given type: null always is; an integer must fit an integer
/// column exactly; every other primitive type takes exactly its own
/// variant, a datetime or duration additionally with the matching unit.
pub open spec fn strict_ok(dtype: DataType, av: AnyValue) -> bool {
    av is Null || match dtype {
        DataType::Int8 | DataType::Int16 | DataType::Int32 | DataType::Int64 | DataType::UInt8
            | DataType::UInt16 | DataType::UInt32 | DataType::UInt64 => int_value(av) matches Some(
            v,
        ) && in_dtype_range(dtype, v),
        DataType::Float32 => av is Float32,
        DataType::Float64 => av is Float64,
        DataType::Date => av is Date,
        DataType::Time => av is Time,
        DataType::Datetime(tu) => av matches AnyValue::Datetime(_, tu2) && tu2 == tu,
        DataType::Duration(tu) => av matches AnyValue::Duration(_, tu2) && tu2 == tu,
        _ => false,
    }
}

/// The slot a strictly admitted value occupies: null stays null, anything
/// else stores its physical payload.
pub open spec fn slot_strict(av: AnyValue) -> Option<i128> {
    if av is Null {
        None
    } else {
        physical_payload(av)
    }
}

/// The slot a value occupies in non-strict mode: an admissible value is
/// stored, anything else becomes null. This crate's non-strict conversion
/// does not re-cast across types.
pub open spec fn slot_nonstrict(dtype: DataType, av: AnyValue) -> Option<i128> {
    if strict_ok(dtype, av) {
        slot_strict(av)
    } else {
        None
    }
}

/// A physical column of one primitive type: one optional payload per row.
pub struct PrimitiveChunked {
    pub dtype: DataType,
    pub values: Vec<Option<i128>>,
}

/// A physical boolean column.
pub struct BooleanChunked {
    pub values: Vec<Option<bool>>,
}

/// A physical string column.
pub struct StringChunked {
    pub values: Vec<Option<String>>,
}

/// A physical binary column.
pub struct BinaryChunked {
    pub values: Vec<Option<Vec<u8>>>,
}

/// The width in bits of an integer column type.
pub open spec fn int_width(dtype: DataType) -> int {
    match dtype {
        DataType::Int8 | DataType::UInt8 => 8,
        DataType::Int16 | DataType::UInt16 => 16,
        DataType::Int32 | DataType::UInt32 => 32,
        DataType::Int64 | DataType::UInt64 => 64,
        _ => 0,
    }
}

/// True of the signed integer column types.
pub open spec fn is_signed_int(dtype: DataType) -> bool {
    dtype is Int8 || dtype is Int16 || dtype is Int32 || dtype is Int64
}

/// The signed integer type of a given width.
pub open spec fn signed_of_width(w: int) -> DataType {
    if w <= 8 {
        DataType::Int8
    } else if w <= 16 {
        DataType::Int16
    } else if w <= 32 {
        DataType::Int32
    } else {
        DataType::Int64
    }
}

/// The unsigned integer type of a given width.
pub open spec fn unsigned_of_width(w: int) -> DataType {
    if w <= 8 {
        DataType::UInt8
    } else if w <= 16 {
        DataType::UInt16
    } else if w <= 32 {
        DataType::UInt32
    } else {
        DataType::UInt64
    }
}

/// The least common column type two types widen to, when one exists: a
/// type joined with itself or with null is itself; two integer types join
/// to the narrowest integer type whose range covers both (which does not
/// exist for an unsigned 64-bit type against a signed one); anything else
/// has no common type here.
pub open spec fn dtype_supertype_spec(a: DataType, b: DataType) -> Option<DataType> {
    if a == b {
        Some(a)
    } else if a is Null {
        Some(b)
    } else if b is Null {
        Some(a)
    } else if a.spec_is_integer() && b.spec_is_integer() {
        if is_signed_int(a) == is_signed_int(b) {
            let w = if int_width(a) >= int_width(b) {
                int_width(a)
            } else {
                int_width(b)
            };
            if is_signed_int(a) {
                Some(signed_of_width(w))
            } else {
                Some(unsigned_of_width(w))
            }
        } else {
            let sw = if is_signed_int(a) {
                int_width(a)
            } else {
                int_width(b)
            };
            let uw = if is_signed_int(a) {
                int_width(b)
            } else {
                int_width(a)
            };
            if uw >= 64 {
                None
            } else {
                let w = if sw >= 2 * uw {
                    sw
                } else {
                    2 * uw
                };
                Some(signed_of_width(w))
            }
        }
    } else {
        None
    }
}

/// Joins two column types to their least common type, when one exists.
pub fn dtype_supertype(a: &DataType, b: &DataType) -> (r: Option<DataType>)
    ensures
        r == dtype_supertype_spec(*a, *b),
{
    if a == b {
        return Some(*a);
    }
    if matches!(a, DataType::Null) {
        return Some(*b);
    }
    if matches!(b, DataType::Null) {
        return Some(*a);
    }
    if !(a.is_integer() && b.is_integer()) {
        return None;
    }
    let wa: u32 = match a {
        DataType::Int8 | DataType::UInt8 => 8,
        DataType::Int16 | DataType::UInt16 => 16,
        DataType::Int32 | DataType::UInt32 => 32,
        _ => 64,
    };
    let wb: u32 = match b {
        DataType::Int8 | DataType::UInt8 => 8,
        DataType::Int16 | DataType::UInt16 => 16,
        DataType::Int32 | DataType::UInt32 => 32,
        _ => 64,
    };
    let sa = matches!(a, DataType::Int8 | DataType::Int16 | DataType::Int32 | DataType::Int64);
    let sb = matches!(b, DataType::Int8 | DataType::Int16 | DataType::Int32 | DataType::Int64);
    if sa == sb {
        let w = if wa >= wb {
            wa
        } else {
            wb
        };
        if sa {
            Some(signed_of_width_exec(w))
        } else {
            Some(unsigned_of_width_exec(w))
        }
    } else {
        let sw = if sa {
            wa
        } else {
            wb
        };
        let uw = if sa {
            wb
        } else {
            wa
        };
        if uw >= 64 {
            None
        } else {
            let w = if sw >= 2 * uw {
                sw
            } else {
                2 * uw
            };
            Some(signed_of_width_exec(w))
        }
    }
}

/// The signed integer type of a given width.
fn signed_of_width_exec(w: u32) -> (r: DataType)
    ensures
        r == signed_of_width(w as int),
{
    if w <= 8 {
        DataType::Int8
    } else if w <= 16 {
        DataType::Int16
    } else if w <= 32 {
        DataType::Int32
    } else {
        DataType::Int64
    }
}

/// The unsigned integer type of a given width.
fn unsigned_of_width_exec(w: u32) -> (r: DataType)
    ensures
        r == unsigned_of_width(w as int),
{
    if w <= 8 {
        DataType::UInt8
    } else if w <= 16 {
        DataType::UInt16
    } else if w <= 32 {
        DataType::UInt32
    } else {
        DataType::UInt64
    }
}

/// Why a conversion was refused.
#[derive(Debug)]
pub enum ValueError {
    /// A value did not match the column type being built.
    SchemaMismatch { expected: DataType, found: DataType },
    /// Two columns whose heights cannot be combined.
    LengthMismatch { left: usize, right: usize },
    /// Two value types with no common column type to widen to.
    NoSupertype { left: DataType, right: DataType },
}

/// The error raised when a value of the wrong type shows up while a column
/// of `dtype` is being built.
pub fn invalid_value_error(dtype: &DataType, value: &AnyValue) -> (r: ValueError)
    ensures
        r == (ValueError::SchemaMismatch { expected: *dtype, found: value.spec_dtype() }),
{
    ValueError::SchemaMismatch { expected: *dtype, found: value.dtype() }
}

/// Exactly what converting scalars into a primitive column returns: on
/// success, one slot per input value (in strict mode every value was
/// admissible; in non-strict mode inadmissible values became null); on
/// failure — strict mode only — the error names the target type and the
/// type of the first inadmissible value.
pub open spec fn primitive_conversion_result(
    values: Seq<AnyValue>,
    dtype: DataType,
    strict: bool,
    r: Result<PrimitiveChunked, ValueError>,
) -> bool {
    match r {
        Ok(c) => {
            &&& (strict ==> forall|i: int|
                0 <= i < values.len() ==> strict_ok(dtype, #[trigger] values[i]))
            &&& c.dtype == dtype
            &&& c.values@.len() == values.len()
            &&& forall|i: int|
                0 <= i < values.len() ==> c.values@[i] == (if strict {
                    slot_strict(values[i])
                } else {
                    slot_nonstrict(dtype, #[trigger] values[i])
                })
        },
        Err(e) => {
            &&& strict
            &&& exists|k: int|
                0 <= k < values.len() && !strict_ok(dtype, #[trigger] values[k]) && (forall|j: int|
                    0 <= j < k ==> strict_ok(dtype, #[trigger] values[j])) && e == (
                ValueError::SchemaMismatch { expected: dtype, found: values[k].spec_dtype() })
        },
    }
}

/// Converts scalars into a primitive column of the given type. In strict
/// mode the first inadmissible value aborts the conversion with a
/// schema-mismatch error naming its type; in non-strict mode inadmissible
/// values become null.
pub fn any_values_to_primitive(values: &Vec<AnyValue>, dtype: DataType, strict: bool) -> (r:
    Result<PrimitiveChunked, ValueError>)
    ensures
        primitive_conversion_result(values@, dtype, strict, r),
{
    let n = values.len();
    let mut out: Vec<Option<i128>> = Vec::new();
    let mut i: usize = 0;
    while i < n
        invariant
            i <= n,
            n == values@.len(),
            out@.len() == i,
            strict ==> forall|j: int| 0 <= j < i ==> strict_ok(dtype, #[trigger] values@[j]),
            forall|j: int|
                0 <= j < i ==> out@[j] == (if strict {
                    slot_strict(values@[j])
                } else {
                    slot_nonstrict(dtype, #[trigger] values@[j])
                }),
        decreases n - i,
    {
        let av = &values[i];
        let admissible = strict_ok_exec(&dtype, av);
        if admissible {
            out.push(physical_payload_exec(av));
        } else {
            if strict {
                return Err(invalid_value_error(&dtype, av));
            }
            out.push(None);
        }
        i += 1;
    }
    Ok(PrimitiveChunked { dtype, values: out })
}

/// Checks strict admissibility of one value for a primitive column type.
fn strict_ok_exec(dtype: &DataType, av: &AnyValue) -> (r: bool)
    ensures
        r == strict_ok(*dtype, *av),
{
    if matches!(av, AnyValue::Null) {
        return true;
    }
    match dtype {
        DataType::Int8 | DataType::Int16 | DataType::Int32 | DataType::Int64 | DataType::UInt8
            | DataType::UInt16 | DataType::UInt32 | DataType::UInt64 => {
            match extract_int(av) {
                Some(v) => {
                    let lo: i128 = match dtype {
                        DataType::Int8 => i8::MIN as i128,
                        DataType::Int16 => i16::MIN as i128,
                        DataType::Int32 => i32::MIN as i128,
                        DataType::Int64 => i64::MIN as i128,
                        _ => 0,
                    };
                    let hi: i128 = match dtype {
                        DataType::Int8 => i8::MAX as i128,
                        DataType::Int16 => i16::MAX as i128,
                        DataType::Int32 => i32::MAX as i128,
                        DataType::Int64 => i64::MAX as i128,
                        DataType::UInt8 => u8::MAX as i128,
                        DataType::UInt16 => u16::MAX as i128,
                        DataType::UInt32 => u32::MAX as i128,
                        DataType::UInt64 => u64::MAX as i128,
                        _ => 0,
                    };
                    lo <= v && v <= hi
                },
                None => false,
            }
        },
        DataType::Float32 => matches!(av, AnyValue::Float32(_)),
        DataType::Float64 => matches!(av, AnyValue::Float64(_)),
        DataType::Date => matches!(av, AnyValue::Date(_)),
        DataType::Time => matches!(av, AnyValue::Time(_)),
        DataType::Datetime(tu) => {
            match av {
                AnyValue::Datetime(_, tu2) => tu2 == tu,
                _ => false,
            }
        },
        DataType::Duration(tu) => {
            match av {
                AnyValue::Duration(_, tu2) => tu2 == tu,
                _ => false,
            }
        },
        _ => false,
    }
}

/// The integer a value carries, if any.
pub fn extract_int(av: &AnyValue) -> (r: Option<i128>)
    ensures
        r == int_value(*av),
{
    match av {
        AnyValue::Int8(v) => Some(*v as i128),
        AnyValue::Int16(v) => Some(*v as i128),
        AnyValue::Int32(v) => Some(*v as i128),
        AnyValue::Int64(v) => Some(*v as i128),
        AnyValue::UInt8(v) => Some(*v as i128),
        AnyValue::UInt16(v) => Some(*v as i128),
        AnyValue::UInt32(v) => Some(*v as i128),
        AnyValue::UInt64(v) => Some(*v as i128),
        _ => None,
    }
}

/// The physical payload of a non-null value admitted into a primitive
/// column.
fn physical_payload_exec(av: &AnyValue) -> (r: Option<i128>)
    ensures
        r == if av is Null {
            Option::<i128>::None
        } else {
            physical_payload(*av)
        },
        !(av is Null) ==> r == slot_strict(*av),
{
    match av {
        AnyValue::Null => None,
        AnyValue::Float32(bits) => Some(*bits as i128),
        AnyValue::Float64(bits) => Some(*bits as i128),
        AnyValue::Date(v) => Some(*v as i128),
        AnyValue::Time(v) => Some(*v as i128),
        AnyValue::Datetime(v, _) => Some(*v as i128),
        AnyValue::Duration(v, _) => Some(*v as i128),
        _ => extract_int(av),
    }
}

/// Converts scalars into an integer column.
pub fn any_values_to_integer(values: &Vec<AnyValue>, dtype: DataType, strict: bool) -> (r: Result<
    PrimitiveChunked,
    ValueError,
>)
    requires
        dtype.spec_is_integer(),
    ensures
        primitive_conversion_result(values@, dtype, strict, r),
{
    any_values_to_primitive(values, dtype, strict)
}

/// Best-effort conversion into a primitive column: inadmissible values
/// become null, and nothing fails.
pub fn any_values_to_primitive_nonstrict(values: &Vec<AnyValue>, dtype: DataType) -> (r:
    PrimitiveChunked)
    ensures
        primitive_conversion_result(values@, dtype, false, Ok(r)),
{
    match any_values_to_primitive(values, dtype, false) {
        Ok(c) => c,
        Err(_) => vstd::pervasive::unreached(),
    }
}

/// Converts scalars into a 32-bit float column; the stored payloads are
/// the values' raw bit patterns.
pub fn any_values_to_f32(values: &Vec<AnyValue>, strict: bool) -> (r: Result<
    PrimitiveChunked,
    ValueError,
>)
    ensures
        primitive_conversion_result(values@, DataType::Float32, strict, r),
{
    any_values_to_primitive(values, DataType::Float32, strict)
}

/// Converts scalars into a 64-bit float column; the stored payloads are
/// the values' raw bit patterns. Strict mode admits only 64-bit values:
/// this crate does not widen 32-bit patterns.
pub fn any_values_to_f64(values: &Vec<AnyValue>, strict: bool) -> (r: Result<
    PrimitiveChunked,
    ValueError,
>)
    ensures
        primitive_conversion_result(values@, DataType::Float64, strict, r),
{
    any_values_to_primitive(values, DataType::Float64, strict)
}

/// Converts scalars into a date column of day numbers.
pub fn any_values_to_date(values: &Vec<AnyValue>, strict: bool) -> (r: Result<
    PrimitiveChunked,
    ValueError,
>)
    ensures
        primitive_conversion_result(values@, DataType::Date, strict, r),
{
    any_values_to_primitive(values, DataType::Date, strict)
}

/// Converts scalars into a time-of-day column of nanosecond counts.
pub fn any_values_to_time(values: &Vec<AnyValue>, strict: bool) -> (r: Result<
    PrimitiveChunked,
    ValueError,
>)
    ensures
        primitive_conversion_result(values@, DataType::Time, strict, r),
{
    any_values_to_primitive(values, DataType::Time, strict)
}

/// Converts scalars into a datetime column of the given unit; only values
/// carrying exactly that unit are admitted.
pub fn any_values_to_datetime(values: &Vec<AnyValue>, time_unit: TimeUnit, strict: bool) -> (r:
    Result<PrimitiveChunked, ValueError>)
    ensures
        primitive_conversion_result(values@, DataType::Datetime(time_unit), strict, r),
{
    any_values_to_primitive(values, DataType::Datetime(time_unit), strict)
}

/// Converts scalars into a duration column of the given unit; only values
/// carrying exactly that unit are admitted.
pub fn any_values_to_duration(values: &Vec<AnyValue>, time_unit: TimeUnit, strict: bool) -> (r:
    Result<PrimitiveChunked, ValueError>)
    ensures
        primitive_conversion_result(values@, DataType::Duration(time_unit), strict, r),
{
    any_values_to_primitive(values, DataType::Duration(time_unit), strict)
}

/// The slot a value occupies in a boolean column, or `None` for "not a
/// boolean".
pub open spec fn bool_slot(av: AnyValue) -> Option<bool> {
    match av {
        AnyValue::Boolean(b) => Some(b),
        _ => None,
    }
}

/// Converts scalars into a boolean column. Strict mode refuses the first
/// non-boolean, non-null value; non-strict mode turns it into null.
pub fn any_values_to_bool(values: &Vec<AnyValue>, strict: bool) -> (r: Result<
    BooleanChunked,
    ValueError,
>)
    ensures
        match r {
            Ok(c) => {
                &&& c.values@.len() == values@.len()
                &&& forall|i: int|
                    0 <= i < values@.len() ==> c.values@[i] == bool_slot(#[trigger] values@[i])
                &&& strict ==> forall|i: int|
                    0 <= i < values@.len() ==> (values@[i] is Null || #[trigger] values@[i]
                        is Boolean)
            },
            Err(e) => {
                &&& strict
                &&& exists|k: int|
                    0 <= k < values@.len() && !(values@[k] is Null || #[trigger] values@[k]
                        is Boolean) && (forall|j: int|
                        0 <= j < k ==> (values@[j] is Null || #[trigger] values@[j] is Boolean))
                        && e == (ValueError::SchemaMismatch {
                        expected: DataType::Boolean,
                        found: values@[k].spec_dtype(),
                    })
            },
        },
{
    let n = values.len();
    let mut out: Vec<Option<bool>> = Vec::new();
    let mut i: usize = 0;
    while i < n
        invariant
            i <= n,
            n == values@.len(),
            out@.len() == i,
            strict ==> forall|j: int|
                0 <= j < i ==> (values@[j] is Null || #[trigger] values@[j] is Boolean),
            forall|j: int| 0 <= j < i ==> out@[j] == bool_slot(#[trigger] values@[j]),
        decreases n - i,
    {
        match &values[i] {
            AnyValue::Boolean(b) => {
                out.push(Some(*b));
            },
            AnyValue::Null => {
                out.push(None);
            },
            av => {
                if strict {
                    return Err(invalid_value_error(&DataType::Boolean, av));
                }
                out.push(None);
            },
        }
        i += 1;
    }
    Ok(BooleanChunked { values: out })
}

/// The slot a value occupies in a string column.
pub open spec fn string_slot(av: AnyValue) -> Option<String> {
    match av {
        AnyValue::String(s) => Some(s),
        _ => None,
    }
}

/// Converts scalars into a string column. Strict mode refuses the first
/// non-string, non-null value; non-strict mode turns it into null (this
/// crate does not render other values as text).
pub fn any_values_to_string(values: &Vec<AnyValue>, strict: bool) -> (r: Result<
    StringChunked,
    ValueError,
>)
    ensures
        match r {
            Ok(c) => {
                &&& c.values@.len() == values@.len()
                &&& forall|i: int|
                    0 <= i < values@.len() ==> c.values@[i] == string_slot(#[trigger] values@[i])
                &&& strict ==> forall|i: int|
                    0 <= i < values@.len() ==> (values@[i] is Null || #[trigger] values@[i]
                        is String)
            },
            Err(e) => {
                &&& strict
                &&& exists|k: int|
                    0 <= k < values@.len() && !(values@[k] is Null || #[trigger] values@[k]
                        is String) && (forall|j: int|
                        0 <= j < k ==> (values@[j] is Null || #[trigger] values@[j] is String))
                        && e == (ValueError::SchemaMismatch {
                        expected: DataType::String,
                        found: values@[k].spec_dtype(),
                    })
            },
        },
{
    let n = values.len();
    let mut out: Vec<Option<String>> = Vec::new();
    let mut i: usize = 0;
    while i < n
        invariant
            i <= n,
            n == values@.len(),
            out@.len() == i,
            strict ==> forall|j: int|
                0 <= j < i ==> (values@[j] is Null || #[trigger] values@[j] is String),
            forall|j: int| 0 <= j < i ==> out@[j] == string_slot(#[trigger] values@[j]),
        decreases n - i,
    {
        match &values[i] {
            AnyValue::String(s) => {
                out.push(Some(s.clone()));
            },
            AnyValue::Null => {
                out.push(None);
            },
            av => {
                if strict {
                    return Err(invalid_value_error(&DataType::String, av));
                }
                out.push(None);
            },
        }
        i += 1;
    }
    Ok(StringChunked { values: out })
}

/// How a value appears in a binary column: a byte string keeps its bytes,
/// everything else is null.
pub open spec fn binary_slot_matches(av: AnyValue, slot: Option<Vec<u8>>) -> bool {
    match av {
        AnyValue::Binary(b) => slot matches Some(s) && s@ == b@,
        _ => slot is None,
    }
}

/// Converts scalars into a binary column. Strict mode refuses the first
/// non-binary, non-null value; non-strict mode turns it into null.
pub fn any_values_to_binary(values: &Vec<AnyValue>, strict: bool) -> (r: Result<
    BinaryChunked,
    ValueError,
>)
    ensures
        match r {
            Ok(c) => {
                &&& c.values@.len() == values@.len()
                &&& forall|i: int|
                    0 <= i < values@.len() ==> binary_slot_matches(
                        #[trigger] values@[i],
                        c.values@[i],
                    )
                &&& strict ==> forall|i: int|
                    0 <= i < values@.len() ==> (values@[i] is Null || #[trigger] values@[i]
                        is Binary)
            },
            Err(e) => {
                &&& strict
                &&& exists|k: int|
                    0 <= k < values@.len() && !(values@[k] is Null || #[trigger] values@[k]
                        is Binary) && (forall|j: int|
                        0 <= j < k ==> (values@[j] is Null || #[trigger] values@[j] is Binary))
                        && e == (ValueError::SchemaMismatch {
                        expected: DataType::Binary,
                        found: values@[k].spec_dtype(),
                    })
            },
        },
{
    let n = values.len();
    let mut out: Vec<Option<Vec<u8>>> = Vec::new();
    let mut i: usize = 0;
    while i < n
        invariant
            i <= n,
            n == values@.len(),
            out@.len() == i,
            strict ==> forall|j: int|
                0 <= j < i ==> (values@[j] is Null || #[trigger] values@[j] is Binary),
            forall|j: int|
                0 <= j < i ==> binary_slot_matches(#[trigger] values@[j], out@[j]),
        decreases n - i,
    {
        match &values[i] {
            AnyValue::Binary(b) => {
                let copy = clone_bytes(b);
                out.push(Some(copy));
            },
            AnyValue::Null => {
                out.push(None);
            },
            av => {
                if strict {
                    return Err(invalid_value_error(&DataType::Binary, av));
                }
                out.push(None);
            },
        }
        i += 1;
    }
    Ok(BinaryChunked { values: out })
}

/// Converts scalars into a binary column stored with wide offsets. The
/// stored bytes are the same as in the narrow-offset layout; only the
/// physical offset width differs, which this model does not represent.
pub fn any_values_to_binary_offset(values: &Vec<AnyValue>, strict: bool) -> (r: Result<
    BinaryChunked,
    ValueError,
>)
    ensures
        match r {
            Ok(c) => c.values@.len() == values@.len() && forall|i: int|
                0 <= i < values@.len() ==> binary_slot_matches(
                    #[trigger] values@[i],
                    c.values@[i],
                ),
            Err(e) => strict,
        },
{
    any_values_to_binary(values, strict)
}

/// An owned copy of a byte string.
fn clone_bytes(b: &Vec<u8>) -> (r: Vec<u8>)
    ensures
        r@ == b@,
{
    let n = b.len();
    let mut out: Vec<u8> = Vec::new();
    let mut i: usize = 0;
    while i < n
        invariant
            i <= n,
            n == b@.len(),
            out@ == b@.take(i as int),
        decreases n - i,
    {
        out.push(b[i]);
        proof {
            assert(b@.take(i as int + 1) =~= b@.take(i as int).push(b@[i as int]));
        }
        i += 1;
    }
    proof {
        assert(b@.take(n as int) =~= b@);
    }
    out
}

} // verus!
