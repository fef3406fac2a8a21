//! Arg-min and arg-max over columns: the position of the smallest or
//! largest non-null value. Ties resolve to the earliest position, and an
//! all-null column has no answer.

use vstd::prelude::*;
use crate::dtype::DataType;
use crate::series::{Series, SeriesData};

verus! {

/// Argmin / argmax.
pub trait ArgAgg {
    /// Get the index of the minimal value.
    fn arg_min(&self) -> Option<usize>;

    /// Get the index of the maximal value.
    fn arg_max(&self) -> Option<usize>;
}

/// Strict codepoint-lexicographic order on strings.
pub open spec fn chars_lt(a: Seq<char>, b: Seq<char>) -> bool
    decreases a.len(),
{
    if b.len() == 0 {
        false
    } else if a.len() == 0 {
        true
    } else if (a[0] as u32) < (b[0] as u32) {
        true
    } else if (a[0] as u32) > (b[0] as u32) {
        false
    } else {
        chars_lt(a.drop_first(), b.drop_first())
    }
}

/// Compares two strings in codepoint-lexicographic order.
pub fn str_lt(a: &String, b: &String) -> (r: bool)
    ensures
        r == chars_lt(a@, b@),
{
    let an = a.as_str().unicode_len();
    let bn = b.as_str().unicode_len();
    let mut i: usize = 0;
    proof {
        assert(a@.skip(0) =~= a@);
        assert(b@.skip(0) =~= b@);
    }
    while i < an && i < bn
        invariant
            i <= an,
            i <= bn,
            an == a@.len(),
            bn == b@.len(),
            chars_lt(a@, b@) == chars_lt(a@.skip(i as int), b@.skip(i as int)),
        decreases an - i,
    {
        let ca = a.as_str().get_char(i);
        let cb = b.as_str().get_char(i);
        proof {
            let sa = a@.skip(i as int);
            let sb = b@.skip(i as int);
            assert(sa[0] == a@[i as int]);
            assert(sb[0] == b@[i as int]);
            assert(sa.drop_first() =~= a@.skip(i as int + 1));
            assert(sb.drop_first() =~= b@.skip(i as int + 1));
        }
        if (ca as u32) < (cb as u32) {
            return true;
        }
        if (ca as u32) > (cb as u32) {
            return false;
        }
        i += 1;
    }
    proof {
        assert(a@.skip(i as int).len() == a@.len() - i);
        assert(b@.skip(i as int).len() == b@.len() - i);
    }
    an < bn
}

/// The index of the minimal non-null boolean: the first false, or else
/// the first true, or nothing when every slot is null.
pub fn arg_min_bool(values: &Vec<Option<bool>>) -> (r: Option<usize>)
    ensures
        match r {
            Some(i) => i < values@.len() && values@[i as int] is Some && (values@[i as int]
                == Some(false) || forall|j: int|
                0 <= j < values@.len() ==> #[trigger] values@[j] != Some(false)) && (forall|
                j: int,
            |
                0 <= j < i ==> #[trigger] values@[j] != values@[i as int]),
            None => forall|j: int| 0 <= j < values@.len() ==> #[trigger] values@[j] is None,
        },
{
    let first_false = first_index_of_bool(values, false);
    match first_false {
        Some(i) => Some(i),
        None => {
            let r2 = first_index_of_bool(values, true);
            proof {
                if r2 is None {
                    assert forall|j: int|
                        0 <= j < values@.len() implies #[trigger] values@[j] is None by {
                        if values@[j] is Some {
                            let b = values@[j]->Some_0;
                            assert(b == true || b == false);
                        }
                    }
                }
            }
            r2
        },
    }
}

/// The index of the maximal non-null boolean: the first true, or else the
/// first false, or nothing when every slot is null.
pub fn arg_max_bool(values: &Vec<Option<bool>>) -> (r: Option<usize>)
    ensures
        match r {
            Some(i) => i < values@.len() && values@[i as int] is Some && (values@[i as int]
                == Some(true) || forall|j: int|
                0 <= j < values@.len() ==> #[trigger] values@[j] != Some(true)) && (forall|j: int|
                0 <= j < i ==> #[trigger] values@[j] != values@[i as int]),
            None => forall|j: int| 0 <= j < values@.len() ==> #[trigger] values@[j] is None,
        },
{
    let first_true = first_index_of_bool(values, true);
    match first_true {
        Some(i) => Some(i),
        None => {
            let r2 = first_index_of_bool(values, false);
            proof {
                if r2 is None {
                    assert forall|j: int|
                        0 <= j < values@.len() implies #[trigger] values@[j] is None by {
                        if values@[j] is Some {
                            let b = values@[j]->Some_0;
                            assert(b == true || b == false);
                        }
                    }
                }
            }
            r2
        },
    }
}

/// The first position holding exactly the given boolean.
fn first_index_of_bool(values: &Vec<Option<bool>>, want: bool) -> (r: Option<usize>)
    ensures
        match r {
            Some(i) => i < values@.len() && values@[i as int] == Some(want) && forall|j: int|
                0 <= j < i ==> #[trigger] values@[j] != Some(want),
            None => forall|j: int| 0 <= j < values@.len() ==> #[trigger] values@[j] != Some(want),
        },
{
    let n = values.len();
    let mut i: usize = 0;
    while i < n
        invariant
            i <= n,
            n == values@.len(),
            forall|j: int| 0 <= j < i ==> #[trigger] values@[j] != Some(want),
        decreases n - i,
    {
        if let Some(b) = values[i] {
            if b == want {
                return Some(i);
            }
        }
        i += 1;
    }
    None
}

/// The first position of the minimal non-null string, in codepoint order.
pub fn arg_min_str(values: &Vec<Option<String>>) -> (r: Option<usize>)
    ensures
        match r {
            Some(i) => {
                &&& i < values@.len()
                &&& values@[i as int] is Some
                &&& forall|j: int|
                    0 <= j < values@.len() && #[trigger] values@[j] is Some ==> !chars_lt(
                        values@[j]->Some_0@,
                        values@[i as int]->Some_0@,
                    )
                &&& forall|j: int|
                    0 <= j < i && #[trigger] values@[j] is Some ==> chars_lt(
                        values@[i as int]->Some_0@,
                        values@[j]->Some_0@,
                    )
            },
            None => forall|j: int| 0 <= j < values@.len() ==> #[trigger] values@[j] is None,
        },
{
    arg_extreme_str(values, true)
}

/// The first position of the maximal non-null string, in codepoint order.
pub fn arg_max_str(values: &Vec<Option<String>>) -> (r: Option<usize>)
    ensures
        match r {
            Some(i) => {
                &&& i < values@.len()
                &&& values@[i as int] is Some
                &&& forall|j: int|
                    0 <= j < values@.len() && #[trigger] values@[j] is Some ==> !chars_lt(
                        values@[i as int]->Some_0@,
                        values@[j]->Some_0@,
                    )
                &&& forall|j: int|
                    0 <= j < i && #[trigger] values@[j] is Some ==> chars_lt(
                        values@[j]->Some_0@,
                        values@[i as int]->Some_0@,
                    )
            },
            None => forall|j: int| 0 <= j < values@.len() ==> #[trigger] values@[j] is None,
        },
{
    arg_extreme_str(values, false)
}

/// The first position of the minimal (or, with `minimal` false, maximal)
/// non-null string. The order must be total for the tie-breaking clauses
/// to be exact, which codepoint order is.
fn arg_extreme_str(values: &Vec<Option<String>>, minimal: bool) -> (r: Option<usize>)
    ensures
        match r {
            Some(i) => {
                &&& i < values@.len()
                &&& values@[i as int] is Some
                &&& forall|j: int|
                    0 <= j < values@.len() && #[trigger] values@[j] is Some ==> (if minimal {
                        !chars_lt(values@[j]->Some_0@, values@[i as int]->Some_0@)
                    } else {
                        !chars_lt(values@[i as int]->Some_0@, values@[j]->Some_0@)
                    })
                &&& forall|j: int|
                    0 <= j < i && #[trigger] values@[j] is Some ==> (if minimal {
                        chars_lt(values@[i as int]->Some_0@, values@[j]->Some_0@)
                    } else {
                        chars_lt(values@[j]->Some_0@, values@[i as int]->Some_0@)
                    })
            },
            None => forall|j: int| 0 <= j < values@.len() ==> #[trigger] values@[j] is None,
        },
{
    let n = values.len();
    let mut best: Option<usize> = None;
    let mut i: usize = 0;
    while i < n
        invariant
            i <= n,
            n == values@.len(),
            match best {
                Some(b) => {
                    &&& b < i
                    &&& values@[b as int] is Some
                    &&& forall|j: int|
                        0 <= j < i && #[trigger] values@[j] is Some ==> (if minimal {
                            !chars_lt(values@[j]->Some_0@, values@[b as int]->Some_0@)
                        } else {
                            !chars_lt(values@[b as int]->Some_0@, values@[j]->Some_0@)
                        })
                    &&& forall|j: int|
                        0 <= j < b && #[trigger] values@[j] is Some ==> (if minimal {
                            chars_lt(values@[b as int]->Some_0@, values@[j]->Some_0@)
                        } else {
                            chars_lt(values@[j]->Some_0@, values@[b as int]->Some_0@)
                        })
                },
                None => forall|j: int| 0 <= j < i ==> #[trigger] values@[j] is None,
            },
        decreases n - i,
    {
        if let Some(s) = &values[i] {
            match best {
                Some(b) => {
                    let bs = match &values[b] {
                        Some(bs) => bs,
                        None => vstd::pervasive::unreached(),
                    };
                    let better = if minimal {
                        str_lt(s, bs)
                    } else {
                        str_lt(bs, s)
                    };
                    if better {
                        proof {
                            let si = values@[i as int]->Some_0@;
                            let sb = values@[b as int]->Some_0@;
                            assert forall|j: int|
                                0 <= j < i && #[trigger] values@[j] is Some implies (if minimal {
                                chars_lt(si, values@[j]->Some_0@)
                            } else {
                                chars_lt(values@[j]->Some_0@, si)
                            }) by {
                                let sj = values@[j]->Some_0@;
                                lemma_chars_lt_total(sj, sb);
                                if minimal {
                                    if chars_lt(sb, sj) {
                                        lemma_chars_lt_trans(si, sb, sj);
                                    }
                                } else {
                                    if chars_lt(sj, sb) {
                                        lemma_chars_lt_trans(sj, sb, si);
                                    }
                                }
                            }
                            assert forall|j: int|
                                0 <= j <= i && #[trigger] values@[j] is Some implies (if minimal {
                                !chars_lt(values@[j]->Some_0@, si)
                            } else {
                                !chars_lt(si, values@[j]->Some_0@)
                            }) by {
                                let sj = values@[j]->Some_0@;
                                if j < i {
                                    if minimal {
                                        lemma_chars_lt_asym(si, sj);
                                    } else {
                                        lemma_chars_lt_asym(sj, si);
                                    }
                                } else {
                                    lemma_chars_lt_irrefl(si);
                                }
                            }
                        }
                        best = Some(i);
                    }
                },
                None => {
                    proof {
                        lemma_chars_lt_irrefl(values@[i as int]->Some_0@);
                    }
                    best = Some(i);
                },
            }
        }
        i += 1;
    }
    best
}

/// Two characters with the same scalar value are the same character.
pub proof fn lemma_char_injective(c: char, d: char)
    requires
        c as u32 == d as u32,
    ensures
        c == d,
{
    assert(c as int >= 0 && c as int <= 0x10FFFF);
    assert(d as int >= 0 && d as int <= 0x10FFFF);
    assert(c as int == c as u32 as int);
    assert(d as int == d as u32 as int);
}

/// Codepoint order is total: two strings that are not mutually smaller
/// are equal.
pub proof fn lemma_chars_lt_total(a: Seq<char>, b: Seq<char>)
    ensures
        chars_lt(a, b) || chars_lt(b, a) || a == b,
    decreases a.len(),
{
    if a.len() > 0 && b.len() > 0 {
        if !((a[0] as u32) < (b[0] as u32)) && !((a[0] as u32) > (b[0] as u32)) {
            lemma_char_injective(a[0], b[0]);
            lemma_chars_lt_total(a.drop_first(), b.drop_first());
            if a.drop_first() == b.drop_first() {
                assert(a.drop_first().len() == a.len() - 1);
                assert(b.drop_first().len() == b.len() - 1);
                assert(a.drop_first().len() == b.drop_first().len());
                assert(a.len() == b.len());
                assert forall|k: int| 0 <= k < a.len() implies a[k] == b[k] by {
                    if k > 0 {
                        assert(a.drop_first()[k - 1] == b.drop_first()[k - 1]);
                    }
                }
                assert(a =~= b);
            }
        }
    } else if a.len() == 0 && b.len() == 0 {
        assert(a =~= b);
    }
}

/// Codepoint order never holds of a string and itself.
pub proof fn lemma_chars_lt_irrefl(a: Seq<char>)
    ensures
        !chars_lt(a, a),
    decreases a.len(),
{
    if a.len() > 0 {
        lemma_chars_lt_irrefl(a.drop_first());
    }
}

/// Codepoint order is transitive.
pub proof fn lemma_chars_lt_trans(a: Seq<char>, b: Seq<char>, c: Seq<char>)
    requires
        chars_lt(a, b),
        chars_lt(b, c),
    ensures
        chars_lt(a, c),
    decreases a.len(),
{
    if a.len() > 0 {
        if (a[0] as u32) < (b[0] as u32) {
            if (b[0] as u32) < (c[0] as u32) {
            } else {
                lemma_char_injective(b[0], c[0]);
            }
        } else {
            lemma_char_injective(a[0], b[0]);
            if (b[0] as u32) < (c[0] as u32) {
            } else {
                lemma_char_injective(b[0], c[0]);
                lemma_chars_lt_trans(a.drop_first(), b.drop_first(), c.drop_first());
            }
        }
    }
}

/// One side strictly below another is not also above it.
pub proof fn lemma_chars_lt_asym(a: Seq<char>, b: Seq<char>)
    requires
        chars_lt(a, b),
    ensures
        !chars_lt(b, a),
{
    if chars_lt(b, a) {
        lemma_chars_lt_trans(a, b, a);
        lemma_chars_lt_irrefl(a);
    }
}

/// The first position of the minimal non-null payload of a primitive
/// column.
pub fn arg_min_numeric(values: &Vec<Option<i128>>) -> (r: Option<usize>)
    ensures
        match r {
            Some(i) => {
                &&& i < values@.len()
                &&& values@[i as int] is Some
                &&& forall|j: int|
                    0 <= j < values@.len() && #[trigger] values@[j] is Some ==> values@[
                        i as int
                    ]->0 <= values@[j]->0
                &&& forall|j: int|
                    0 <= j < i && #[trigger] values@[j] is Some ==> values@[i as int]->0
                        < values@[j]->0
            },
            None => forall|j: int| 0 <= j < values@.len() ==> #[trigger] values@[j] is None,
        },
{
    let n = values.len();
    let mut best: Option<usize> = None;
    let mut i: usize = 0;
    while i < n
        invariant
            i <= n,
            n == values@.len(),
            match best {
                Some(b) => {
                    &&& b < i
                    &&& values@[b as int] is Some
                    &&& forall|j: int|
                        0 <= j < i && #[trigger] values@[j] is Some ==> values@[b as int]->0
                            <= values@[j]->0
                    &&& forall|j: int|
                        0 <= j < b && #[trigger] values@[j] is Some ==> values@[b as int]->0
                            < values@[j]->0
                },
                None => forall|j: int| 0 <= j < i ==> #[trigger] values@[j] is None,
            },
        decreases n - i,
    {
        if let Some(v) = values[i] {
            match best {
                Some(b) => {
                    let bv = match values[b] {
                        Some(bv) => bv,
                        None => vstd::pervasive::unreached(),
                    };
                    if v < bv {
                        best = Some(i);
                    }
                },
                None => {
                    best = Some(i);
                },
            }
        }
        i += 1;
    }
    best
}

/// The first position of the maximal non-null payload of a primitive
/// column.
pub fn arg_max_numeric(values: &Vec<Option<i128>>) -> (r: Option<usize>)
    ensures
        match r {
            Some(i) => {
                &&& i < values@.len()
                &&& values@[i as int] is Some
                &&& forall|j: int|
                    0 <= j < values@.len() && #[trigger] values@[j] is Some ==> values@[j]->0
                        <= values@[i as int]->0
                &&& forall|j: int|
                    0 <= j < i && #[trigger] values@[j] is Some ==> values@[j]->0 < values@[
                        i as int
                    ]->0
            },
            None => forall|j: int| 0 <= j < values@.len() ==> #[trigger] values@[j] is None,
        },
{
    let n = values.len();
    let mut best: Option<usize> = None;
    let mut i: usize = 0;
    while i < n
        invariant
            i <= n,
            n == values@.len(),
            match best {
                Some(b) => {
                    &&& b < i
                    &&& values@[b as int] is Some
                    &&& forall|j: int|
                        0 <= j < i && #[trigger] values@[j] is Some ==> values@[j]->0 <= values@[
                            b as int
                        ]->0
                    &&& forall|j: int|
                        0 <= j < b && #[trigger] values@[j] is Some ==> values@[j]->0 < values@[
                            b as int
                        ]->0
                },
                None => forall|j: int| 0 <= j < i ==> #[trigger] values@[j] is None,
            },
        decreases n - i,
    {
        if let Some(v) = values[i] {
            match best {
                Some(b) => {
                    let bv = match values[b] {
                        Some(bv) => bv,
                        None => vstd::pervasive::unreached(),
                    };
                    if v > bv {
                        best = Some(i);
                    }
                },
                None => {
                    best = Some(i);
                },
            }
        }
        i += 1;
    }
    best
}

impl Series {
    /// The position of the smallest value: by payload for integer and
    /// temporal columns, by codepoint order for strings, false-first for
    /// booleans. A null, binary or float-typed column has no answer here
    /// (float payloads are opaque bit patterns in this crate).
    pub fn arg_min_position(&self) -> (r: Option<usize>)
        ensures
            self.data matches SeriesData::Null(_) ==> r is None,
            self.data matches SeriesData::Binary(_) ==> r is None,
            (self.spec_dtype() is Float32 || self.spec_dtype() is Float64) ==> r is None,
            r matches Some(i) ==> i < self.spec_len(),
            self.data matches SeriesData::Boolean(v) ==> match r {
                Some(i) => i < v@.len() && v@[i as int] is Some && (v@[i as int] == Some(false)
                    || forall|j: int| 0 <= j < v@.len() ==> #[trigger] v@[j] != Some(false)) && (
                forall|j: int| 0 <= j < i ==> #[trigger] v@[j] != v@[i as int]),
                None => forall|j: int| 0 <= j < v@.len() ==> #[trigger] v@[j] is None,
            },
            self.data matches SeriesData::Str(v) ==> match r {
                Some(i) => {
                    &&& i < v@.len()
                    &&& v@[i as int] is Some
                    &&& forall|j: int|
                        0 <= j < v@.len() && #[trigger] v@[j] is Some ==> !chars_lt(
                            v@[j]->Some_0@,
                            v@[i as int]->Some_0@,
                        )
                    &&& forall|j: int|
                        0 <= j < i && #[trigger] v@[j] is Some ==> chars_lt(
                            v@[i as int]->Some_0@,
                            v@[j]->Some_0@,
                        )
                },
                None => forall|j: int| 0 <= j < v@.len() ==> #[trigger] v@[j] is None,
            },
            self.data matches SeriesData::Primitive(dt, v) ==> (!(dt is Float32) && !(dt
                is Float64) ==> match r {
                Some(i) => {
                    &&& i < v@.len()
                    &&& v@[i as int] is Some
                    &&& forall|j: int|
                        0 <= j < v@.len() && #[trigger] v@[j] is Some ==> v@[i as int]->0
                            <= v@[j]->0
                    &&& forall|j: int|
                        0 <= j < i && #[trigger] v@[j] is Some ==> v@[i as int]->0 < v@[j]->0
                },
                None => forall|j: int| 0 <= j < v@.len() ==> #[trigger] v@[j] is None,
            }),
    {
        match &self.data {
            SeriesData::Boolean(v) => arg_min_bool(v),
            SeriesData::Str(v) => arg_min_str(v),
            SeriesData::Primitive(dt, v) => {
                if matches!(dt, DataType::Float32 | DataType::Float64) {
                    None
                } else {
                    arg_min_numeric(v)
                }
            },
            _ => None,
        }
    }

    /// The position of the largest value, under the same orders as
    /// `arg_min_position`.
    pub fn arg_max_position(&self) -> (r: Option<usize>)
        ensures
            self.data matches SeriesData::Null(_) ==> r is None,
            self.data matches SeriesData::Binary(_) ==> r is None,
            (self.spec_dtype() is Float32 || self.spec_dtype() is Float64) ==> r is None,
            r matches Some(i) ==> i < self.spec_len(),
            self.data matches SeriesData::Boolean(v) ==> match r {
                Some(i) => i < v@.len() && v@[i as int] is Some && (v@[i as int] == Some(true)
                    || forall|j: int| 0 <= j < v@.len() ==> #[trigger] v@[j] != Some(true)) && (
                forall|j: int| 0 <= j < i ==> #[trigger] v@[j] != v@[i as int]),
                None => forall|j: int| 0 <= j < v@.len() ==> #[trigger] v@[j] is None,
            },
            self.data matches SeriesData::Str(v) ==> match r {
                Some(i) => {
                    &&& i < v@.len()
                    &&& v@[i as int] is Some
                    &&& forall|j: int|
                        0 <= j < v@.len() && #[trigger] v@[j] is Some ==> !chars_lt(
                            v@[i as int]->Some_0@,
                            v@[j]->Some_0@,
                        )
                    &&& forall|j: int|
                        0 <= j < i && #[trigger] v@[j] is Some ==> chars_lt(
                            v@[j]->Some_0@,
                            v@[i as int]->Some_0@,
                        )
                },
                None => forall|j: int| 0 <= j < v@.len() ==> #[trigger] v@[j] is None,
            },
            self.data matches SeriesData::Primitive(dt, v) ==> (!(dt is Float32) && !(dt
                is Float64) ==> match r {
                Some(i) => {
                    &&& i < v@.len()
                    &&& v@[i as int] is Some
                    &&& forall|j: int|
                        0 <= j < v@.len() && #[trigger] v@[j] is Some ==> v@[j]->0 <= v@[
                            i as int
                        ]->0
                    &&& forall|j: int|
                        0 <= j < i && #[trigger] v@[j] is Some ==> v@[j]->0 < v@[i as int]->0
                },
                None => forall|j: int| 0 <= j < v@.len() ==> #[trigger] v@[j] is None,
            }),
    {
        match &self.data {
            SeriesData::Boolean(v) => arg_max_bool(v),
            SeriesData::Str(v) => arg_max_str(v),
            SeriesData::Primitive(dt, v) => {
                if matches!(dt, DataType::Float32 | DataType::Float64) {
                    None
                } else {
                    arg_max_numeric(v)
                }
            },
            _ => None,
        }
    }
}

impl ArgAgg for Series {
    fn arg_min(&self) -> Option<usize> {
        self.arg_min_position()
    }

    fn arg_max(&self) -> Option<usize> {
        self.arg_max_position()
    }
}

} // verus!
