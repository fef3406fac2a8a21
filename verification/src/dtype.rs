//! Logical column types. The optimizer never computes with values of these
//! types; it only inspects coarse classes (null, primitive numeric, boolean,
//! temporal) when it has to synthesize a cheap column for count-star queries.

use vstd::prelude::*;

verus! {

/// Resolution of a datetime or duration column.
#[derive(Clone, Copy, PartialEq, Eq, Structural, Debug)]
pub enum TimeUnit {
    Nanoseconds,
    Microseconds,
    Milliseconds,
}

/// The logical type of a column. Floating-point columns are carried as
/// opaque bit patterns by the value model, so the type is represented here
/// while no floating-point arithmetic ever happens in this crate.
#[derive(Clone, Copy, PartialEq, Eq, Structural, Debug)]
pub enum DataType {
    Null,
    Boolean,
    Int8,
    Int16,
    Int32,
    Int64,
    UInt8,
    UInt16,
    UInt32,
    UInt64,
    Float32,
    Float64,
    String,
    Binary,
    BinaryOffset,
    Date,
    Time,
    Datetime(TimeUnit),
    Duration(TimeUnit),
}

impl DataType {
    /// True only of the null type.
    pub open spec fn spec_is_null(&self) -> bool {
        self is Null
    }

    #[verifier::when_used_as_spec(spec_is_null)]
    pub fn is_null(&self) -> (r: bool)
        ensures
            r == self.spec_is_null(),
    {
        matches!(self, DataType::Null)
    }

    /// True of the integer types.
    pub open spec fn spec_is_integer(&self) -> bool {
        self is Int8 || self is Int16 || self is Int32 || self is Int64 || self is UInt8
            || self is UInt16 || self is UInt32 || self is UInt64
    }

    #[verifier::when_used_as_spec(spec_is_integer)]
    pub fn is_integer(&self) -> (r: bool)
        ensures
            r == self.spec_is_integer(),
    {
        matches!(
            self,
            DataType::Int8 | DataType::Int16 | DataType::Int32 | DataType::Int64 | DataType::UInt8
                | DataType::UInt16 | DataType::UInt32 | DataType::UInt64
        )
    }

    /// True of the integer and floating-point types.
    pub open spec fn spec_is_primitive_numeric(&self) -> bool {
        self.spec_is_integer() || self is Float32 || self is Float64
    }

    #[verifier::when_used_as_spec(spec_is_primitive_numeric)]
    pub fn is_primitive_numeric(&self) -> (r: bool)
        ensures
            r == self.spec_is_primitive_numeric(),
    {
        self.is_integer() || matches!(self, DataType::Float32 | DataType::Float64)
    }

    /// True only of the boolean type.
    pub open spec fn spec_is_bool(&self) -> bool {
        self is Boolean
    }

    #[verifier::when_used_as_spec(spec_is_bool)]
    pub fn is_bool(&self) -> (r: bool)
        ensures
            r == self.spec_is_bool(),
    {
        matches!(self, DataType::Boolean)
    }

    /// True of the date, time, datetime and duration types.
    pub open spec fn spec_is_temporal(&self) -> bool {
        self is Date || self is Time || self is Datetime || self is Duration
    }

    #[verifier::when_used_as_spec(spec_is_temporal)]
    pub fn is_temporal(&self) -> (r: bool)
        ensures
            r == self.spec_is_temporal(),
    {
        matches!(
            self,
            DataType::Date | DataType::Time | DataType::Datetime(_) | DataType::Duration(_)
        )
    }

    /// The class of types that is cheap to read when a query only needs the
    /// row count: null, primitive numeric, boolean or temporal.
    pub open spec fn spec_is_cheap(&self) -> bool {
        self.spec_is_null() || self.spec_is_primitive_numeric() || self.spec_is_bool()
            || self.spec_is_temporal()
    }

    #[verifier::when_used_as_spec(spec_is_cheap)]
    pub fn is_cheap(&self) -> (r: bool)
        ensures
            r == self.spec_is_cheap(),
    {
        self.is_null() || self.is_primitive_numeric() || self.is_bool() || self.is_temporal()
    }
}

} // verus!
