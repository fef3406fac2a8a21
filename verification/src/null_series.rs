//! The all-null column: a column that stores nothing but its height.
//! Every operation on it is pure length arithmetic, which is exactly what
//! this module states and proves.

use vstd::prelude::*;
use crate::series::{Series, SeriesData};
use crate::value::ValueError;

verus! {

/// A column of nulls: a name and a height.
pub struct NullChunked {
    pub name: String,
    pub length: usize,
}

impl NullChunked {
    /// A null column of the given height.
    pub fn new(name: String, len: usize) -> (r: NullChunked)
        ensures
            r.name == name,
            r.length == len,
    {
        NullChunked { name, length: len }
    }

    /// The height.
    pub fn len(&self) -> (r: usize)
        ensures
            r == self.length,
    {
        self.length
    }

    /// True when there are no rows.
    pub fn is_empty(&self) -> (r: bool)
        ensures
            r == (self.length == 0),
    {
        self.length == 0
    }

    /// Every slot is null, so there is at most one distinct value.
    pub fn n_unique(&self) -> (r: usize)
        ensures
            r == if self.length == 0 {
                0int
            } else {
                1int
            },
    {
        if self.is_empty() {
            0
        } else {
            1
        }
    }

    /// A window of the column: a negative offset counts from the end, the
    /// window is clamped to the column, and the result holds the rows that
    /// survive.
    pub fn slice(&self, offset: i64, length: usize) -> (r: NullChunked)
        ensures
            r.name == self.name,
            r.length == slice_len(self.length as int, offset as int, length as int),
    {
        let own: usize = self.length;
        let start: usize = if offset < 0 {
            let back = (-(offset as i128)) as i128;
            if back >= own as i128 {
                0
            } else {
                own - (back as usize)
            }
        } else {
            if offset as u64 >= own as u64 {
                own
            } else {
                offset as usize
            }
        };
        let avail = own - start;
        let out_len = if length < avail {
            length
        } else {
            avail
        };
        NullChunked { name: self.name.clone(), length: out_len }
    }

    /// Splits the column at an offset (negative counts from the end,
    /// clamped to the column): the first part holds the rows before it,
    /// the second the rest.
    pub fn split_at(&self, offset: i64) -> (r: (NullChunked, NullChunked))
        ensures
            r.0.name == self.name,
            r.1.name == self.name,
            r.0.length == split_point(self.length as int, offset as int),
            r.0.length + r.1.length == self.length,
    {
        let own: usize = self.length;
        let at: usize = if offset < 0 {
            let back = (-(offset as i128)) as i128;
            if back >= own as i128 {
                0
            } else {
                own - (back as usize)
            }
        } else {
            if offset as u64 >= own as u64 {
                own
            } else {
                offset as usize
            }
        };
        (
            NullChunked { name: self.name.clone(), length: at },
            NullChunked { name: self.name.clone(), length: own - at },
        )
    }

    /// Appends another null column's rows.
    pub fn append(&mut self, other_len: usize)
        requires
            old(self).length + other_len <= usize::MAX,
        ensures
            final(self).name == old(self).name,
            final(self).length == old(self).length + other_len,
    {
        self.length = self.length + other_len;
    }

    /// Wraps the column as a named series.
    pub fn into_series(self) -> (r: Series)
        ensures
            r.name == self.name,
            r.data matches SeriesData::Null(n) && n == self.length,
    {
        Series { name: self.name, data: SeriesData::Null(self.length) }
    }
}

/// Where a signed offset lands in a column of height `len`: a negative
/// offset counts back from the end and both directions clamp to the
/// column.
pub open spec fn split_point(len: int, offset: int) -> int {
    if offset < 0 {
        if len + offset < 0 {
            0
        } else {
            len + offset
        }
    } else {
        if offset > len {
            len
        } else {
            offset
        }
    }
}

/// The height of the window `slice` keeps.
pub open spec fn slice_len(len: int, offset: int, want: int) -> int {
    let start = split_point(len, offset);
    if want < len - start {
        want
    } else {
        len - start
    }
}

impl Series {
    /// A column of `len` nulls.
    pub fn new_null(name: String, len: usize) -> (r: Series)
        ensures
            r.name == name,
            r.data matches SeriesData::Null(n) && n == len,
            r.spec_len() == len,
    {
        NullChunked::new(name, len).into_series()
    }
}

/// The height of the column an arithmetic operation over a null column
/// produces: a one-row side broadcasts over the other, equal heights pass
/// through, and anything else is a shape mismatch. The result is again all
/// null, named after the left side.
pub fn null_arithmetic(lhs: &NullChunked, rhs: &Series) -> (r: Result<Series, ValueError>)
    ensures
        match r {
            Ok(s) => {
                &&& s.name == lhs.name
                &&& (s.data matches SeriesData::Null(n) && n as int == (if lhs.length == 1 {
                    rhs.spec_len() as int
                } else if rhs.spec_len() == 1 {
                    lhs.length as int
                } else {
                    lhs.length as int
                }))
                &&& (lhs.length == 1 || rhs.spec_len() == 1 || lhs.length == rhs.spec_len())
            },
            Err(e) => {
                &&& lhs.length != 1
                &&& rhs.spec_len() != 1
                &&& lhs.length != rhs.spec_len()
                &&& e is LengthMismatch
            },
        },
{
    let rl = rhs.len();
    let output_len: usize = if lhs.length == 1 {
        rl
    } else if rl == 1 {
        lhs.length
    } else if lhs.length == rl {
        lhs.length
    } else {
        return Err(ValueError::LengthMismatch { left: lhs.length, right: rl });
    };
    Ok(NullChunked::new(lhs.name.clone(), output_len).into_series())
}

} // verus!
