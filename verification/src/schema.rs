//! An ordered mapping of column name to logical type, with positional access
//! and O(len) name lookup. Every relation in a plan is described by one of
//! these; the optimizer rebuilds them when it narrows a scan.

use vstd::prelude::*;
use crate::dtype::DataType;

verus! {

/// One column: its name and its logical type.
pub struct Field {
    pub name: String,
    pub dtype: DataType,
}

impl Field {
    /// An owned copy of the field.
    pub fn duplicate(&self) -> (r: Field)
        ensures
            r == *self,
    {
        let r = Field { name: self.name.clone(), dtype: self.dtype };
        proof {
            assert(r.name == self.name);
        }
        r
    }
}

/// True when some field of `s` is named `n`.
pub open spec fn seq_contains_name(s: Seq<Field>, n: Seq<char>) -> bool {
    exists|i: int| 0 <= i < s.len() && s[i].name@ == n
}

/// The field of `s` named `n`; meaningful only when `seq_contains_name`.
pub open spec fn field_named(s: Seq<Field>, n: Seq<char>) -> Field {
    s[choose|i: int| 0 <= i < s.len() && s[i].name@ == n]
}

/// When `n` occurs in `s`, the field `field_named` picks is named `n` and
/// occurs in `s`.
pub proof fn lemma_field_named(s: Seq<Field>, n: Seq<char>)
    requires
        seq_contains_name(s, n),
    ensures
        field_named(s, n).name@ == n,
        s.contains(field_named(s, n)),
{
    let i = choose|i: int| 0 <= i < s.len() && s[i].name@ == n;
    assert(s[i].name@ == n);
}

/// True when no two fields of `s` share a name.
pub open spec fn distinct_names(s: Seq<Field>) -> bool {
    forall|i: int, j: int| 0 <= i < j < s.len() ==> s[i].name@ != s[j].name@
}

/// An ordered name-to-type mapping with unique names.
pub struct Schema {
    pub fields: Vec<Field>,
}

impl View for Schema {
    type V = Seq<Field>;

    open spec fn view(&self) -> Seq<Field> {
        self.fields@
    }
}

impl Schema {
    /// The well-formedness invariant: column names are unique.
    pub open spec fn wf(&self) -> bool {
        distinct_names(self@)
    }

    /// An empty schema.
    pub fn new() -> (r: Schema)
        ensures
            r@ == Seq::<Field>::empty(),
            r.wf(),
    {
        Schema { fields: Vec::new() }
    }

    /// An empty schema; the capacity hint does not affect the contents.
    pub fn with_capacity(capacity: usize) -> (r: Schema)
        ensures
            r@ == Seq::<Field>::empty(),
            r.wf(),
    {
        let mut fields: Vec<Field> = Vec::new();
        fields.reserve(capacity);
        Schema { fields }
    }

    /// The number of columns.
    pub fn len(&self) -> (r: usize)
        ensures
            r == self@.len(),
    {
        self.fields.len()
    }

    /// The field at a position.
    pub fn get_at_index(&self, i: usize) -> (r: &Field)
        requires
            i < self@.len(),
        ensures
            *r == self@[i as int],
    {
        &self.fields[i]
    }

    /// The position of the column with the given name: the first match, or
    /// `None` when the name is absent.
    pub fn index_of(&self, name: &String) -> (r: Option<usize>)
        ensures
            match r {
                Some(i) => i < self@.len() && self@[i as int].name@ == name@ && (forall|j: int|
                    0 <= j < i ==> self@[j].name@ != name@),
                None => !seq_contains_name(self@, name@),
            },
    {
        let n = self.fields.len();
        let mut i: usize = 0;
        while i < n
            invariant
                i <= n,
                n == self@.len(),
                forall|j: int| 0 <= j < i ==> self@[j].name@ != name@,
            decreases n - i,
        {
            if self.fields[i].name == *name {
                return Some(i);
            }
            i += 1;
        }
        None
    }

    /// Whether a column with the given name exists.
    pub fn contains(&self, name: &String) -> (r: bool)
        ensures
            r == seq_contains_name(self@, name@),
    {
        self.index_of(name).is_some()
    }

    /// Appends a new column, or overwrites the type of an existing one.
    pub fn with_column(&mut self, name: String, dtype: DataType)
        requires
            old(self).wf(),
        ensures
            final(self).wf(),
            seq_contains_name(old(self)@, name@) ==> {
                &&& final(self)@.len() == old(self)@.len()
                &&& exists|i: int|
                    0 <= i < old(self)@.len() && old(self)@[i].name@ == name@ && final(self)@
                        == old(self)@.update(i, Field { name: name, dtype: dtype })
            },
            !seq_contains_name(old(self)@, name@) ==> final(self)@ == old(self)@.push(
                Field { name: name, dtype: dtype },
            ),
    {
        match self.index_of(&name) {
            Some(i) => {
                let ghost old_fields = self.fields@;
                let f = Field { name, dtype };
                self.fields.set(i, f);
                proof {
                    assert(final(self)@ == old_fields.update(
                        i as int,
                        Field { name: name, dtype: dtype },
                    ));
                }
            },
            None => {
                self.fields.push(Field { name, dtype });
            },
        }
    }

    /// Appends a column known to be new.
    pub fn push_field(&mut self, name: String, dtype: DataType)
        requires
            old(self).wf(),
            !seq_contains_name(old(self)@, name@),
        ensures
            final(self).wf(),
            final(self)@ == old(self)@.push(Field { name: name, dtype: dtype }),
    {
        self.fields.push(Field { name, dtype });
    }

    /// Removes the column at a position, keeping the relative order of the
    /// remaining columns, and returns the removed field.
    pub fn shift_remove_index(&mut self, i: usize) -> (r: Field)
        requires
            old(self).wf(),
            i < old(self)@.len(),
        ensures
            final(self).wf(),
            r == old(self)@[i as int],
            final(self)@ == old(self)@.remove(i as int),
    {
        let r = self.fields.remove(i);
        proof {
            assert forall|a: int, b: int| 0 <= a < b < final(self)@.len() implies final(self)@[a].name@
                != final(self)@[b].name@ by {
                let oa: int = if a < i { a } else { a + 1 };
                let ob: int = if b < i { b } else { b + 1 };
                assert(final(self)@[a] == old(self)@[oa]);
                assert(final(self)@[b] == old(self)@[ob]);
            }
        }
        r
    }

    /// Removes the column with the given name, if present, keeping the
    /// relative order of the remaining columns.
    pub fn shift_remove(&mut self, name: &String) -> (r: bool)
        requires
            old(self).wf(),
        ensures
            final(self).wf(),
            r == seq_contains_name(old(self)@, name@),
            r ==> exists|i: int|
                0 <= i < old(self)@.len() && old(self)@[i].name@ == name@ && final(self)@
                    == old(self)@.remove(i),
            !r ==> final(self)@ == old(self)@,
    {
        match self.index_of(name) {
            Some(i) => {
                self.shift_remove_index(i);
                true
            },
            None => false,
        }
    }

    /// An owned copy of the schema.
    pub fn duplicate(&self) -> (r: Schema)
        ensures
            r@ == self@,
    {
        let n = self.fields.len();
        let mut fields: Vec<Field> = Vec::new();
        let mut i: usize = 0;
        while i < n
            invariant
                i <= n,
                n == self@.len(),
                fields@ == self@.take(i as int),
            decreases n - i,
        {
            fields.push(self.fields[i].duplicate());
            proof {
                assert(self@.take(i as int + 1) =~= self@.take(i as int).push(self@[i as int]));
            }
            i += 1;
        }
        proof {
            assert(self@.take(n as int) =~= self@);
        }
        Schema { fields }
    }

    /// The type of the column with the given name, or `None` when absent.
    pub fn dtype_of(&self, name: &String) -> (r: Option<DataType>)
        requires
            self.wf(),
        ensures
            match r {
                Some(dt) => seq_contains_name(self@, name@) && dt == field_named(
                    self@,
                    name@,
                ).dtype,
                None => !seq_contains_name(self@, name@),
            },
    {
        match self.index_of(name) {
            Some(i) => {
                proof {
                    let j = choose|j: int|
                        0 <= j < self@.len() && self@[j].name@ == name@;
                    assert(self@[i as int].name@ == self@[j].name@);
                    assert(i as int == j);
                }
                Some(self.fields[i].dtype)
            },
            None => None,
        }
    }
}

} // verus!
