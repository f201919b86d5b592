//! Rows: insertion-ordered mappings from column name to cell value.

use vstd::prelude::*;
use crate::text::str_eq;
use crate::value::{Number, Scalar, Value};

verus! {

/// The model of a row: its (column name, value) pairs in insertion order.
pub type RowModel = Seq<(Seq<char>, Scalar)>;

/// Index of the first pair of `r` named `name`, or `r.len()` when none is.
pub open spec fn find_field(r: RowModel, name: Seq<char>) -> nat
    decreases r.len(),
{
    if r.len() == 0 {
        0
    } else {
        let k = find_field(r.drop_last(), name);
        if k < r.len() - 1 {
            k
        } else if r.last().0 == name {
            (r.len() - 1) as nat
        } else {
            r.len()
        }
    }
}

/// The value of column `name` in `r`; a missing column reads as absent.
pub open spec fn field_of(r: RowModel, name: Seq<char>) -> Scalar {
    let k = find_field(r, name);
    if k < r.len() {
        r[k as int].1
    } else {
        Scalar::Absent
    }
}

/// `r` with column `name` set to `v`: in place when the column exists,
/// appended at the end otherwise.
pub open spec fn set_field(r: RowModel, name: Seq<char>, v: Scalar) -> RowModel {
    let k = find_field(r, name);
    if k < r.len() {
        r.update(k as int, (name, v))
    } else {
        r.push((name, v))
    }
}

/// Whether `r` holds a column named `name`.
pub open spec fn has_field(r: RowModel, name: Seq<char>) -> bool {
    find_field(r, name) < r.len()
}

pub proof fn lemma_find_field_bound(r: RowModel, name: Seq<char>)
    ensures
        find_field(r, name) <= r.len(),
        find_field(r, name) < r.len() ==> r[find_field(r, name) as int].0 == name,
        forall|j: int| 0 <= j < find_field(r, name) ==> r[j].0 != name,
    decreases r.len(),
{
    if r.len() > 0 {
        lemma_find_field_bound(r.drop_last(), name);
        assert forall|j: int| 0 <= j < find_field(r, name) implies r[j].0 != name by {
            if j < r.len() - 1 {
                assert(r[j] == r.drop_last()[j]);
            }
        }
    }
}

proof fn lemma_find_field_prefix(r: RowModel, name: Seq<char>, i: int)
    requires
        0 <= i < r.len(),
        find_field(r.subrange(0, i), name) == i,
    ensures
        r[i].0 == name ==> find_field(r, name) == i,
        r[i].0 != name ==> find_field(r.subrange(0, i + 1), name) == i + 1,
{
    assert(r.subrange(0, i + 1).drop_last() =~= r.subrange(0, i));
    if r[i].0 == name {
        lemma_find_field_extend(r, name, i + 1);
    }
}

proof fn lemma_find_field_extend(r: RowModel, name: Seq<char>, i: int)
    requires
        0 <= i <= r.len(),
        find_field(r.subrange(0, i), name) < i,
    ensures
        find_field(r, name) == find_field(r.subrange(0, i), name),
    decreases r.len() - i,
{
    if i < r.len() {
        assert(r.subrange(0, i + 1).drop_last() =~= r.subrange(0, i));
        lemma_find_field_extend(r, name, i + 1);
    } else {
        assert(r.subrange(0, i) =~= r);
    }
}

/// A column of a row.
#[derive(Clone, Debug)]
pub struct Field {
    pub name: String,
    pub value: Value,
}

/// A row: columns in insertion order, each with a value.
#[derive(Clone, Debug)]
pub struct Row {
    pub fields: Vec<Field>,
}

impl View for Row {
    type V = RowModel;

    open spec fn view(&self) -> RowModel {
        self.fields@.map_values(|f: Field| (f.name@, f.value@))
    }
}

impl Value {
    /// A copy of this value.
    pub fn duplicate(&self) -> (r: Value)
        ensures
            r@ == self@,
            r.wf() == self.wf(),
    {
        match self {
            Value::Null => Value::Null,
            Value::Bool(b) => Value::Bool(*b),
            Value::Number(n) => Value::Number(Number { num: n.num, den: n.den }),
            Value::Text(t) => Value::Text(t.clone()),
        }
    }
}

impl Row {
    /// Every value of the row is well formed.
    pub open spec fn wf(&self) -> bool {
        forall|i: int| 0 <= i < self.fields@.len() ==> (#[trigger] self.fields@[i]).value.wf()
    }

    /// A row with no columns.
    pub fn new() -> (r: Row)
        ensures
            r@ == Seq::<(Seq<char>, Scalar)>::empty(),
            r.wf(),
    {
        let r = Row { fields: Vec::new() };
        assert(r@ =~= Seq::<(Seq<char>, Scalar)>::empty());
        r
    }

    /// Position of the first column named `name`, or the number of columns.
    pub fn position(&self, name: &str) -> (r: usize)
        ensures
            r == find_field(self@, name@),
    {
        let mut i: usize = 0;
        assert(self@.subrange(0, 0) =~= Seq::<(Seq<char>, Scalar)>::empty());
        while i < self.fields.len()
            invariant
                i <= self@.len(),
                self@.len() == self.fields@.len(),
                find_field(self@.subrange(0, i as int), name@) == i,
            decreases self.fields@.len() - i,
        {
            let hit = str_eq(self.fields[i].name.as_str(), name);
            proof {
                lemma_find_field_prefix(self@, name@, i as int);
            }
            if hit {
                return i;
            }
            i = i + 1;
        }
        assert(self@.subrange(0, i as int) =~= self@);
        i
    }

    /// Whether the row has a column named `name`.
    pub fn has_column(&self, name: &str) -> (r: bool)
        ensures
            r == has_field(self@, name@),
    {
        self.position(name) < self.fields.len()
    }

    /// The value of column `name`; a missing column reads as `Null`.
    pub fn get(&self, name: &str) -> (r: Value)
        requires
            self.wf(),
        ensures
            r@ == field_of(self@, name@),
            r.wf(),
    {
        let k = self.position(name);
        if k < self.fields.len() {
            self.fields[k].value.duplicate()
        } else {
            Value::Null
        }
    }

    /// Sets column `name` to `value`, in place when it exists, else at the end.
    pub fn set(&mut self, name: String, value: Value)
        requires
            old(self).wf(),
            value.wf(),
        ensures
            final(self)@ == set_field(old(self)@, name@, value@),
            final(self).wf(),
    {
        let k = self.position(name.as_str());
        let ghost name_v = name@;
        let ghost value_v = value@;
        if k < self.fields.len() {
            self.fields.set(k, Field { name, value });
            assert(self@ =~= set_field(old(self)@, name_v, value_v));
        } else {
            self.fields.push(Field { name, value });
            assert(self@ =~= set_field(old(self)@, name_v, value_v));
        }
        assert forall|i: int| 0 <= i < self.fields@.len() implies (#[trigger] self.fields@[i]).value.wf() by {
            if i != k {
                assert(self.fields@[i] == old(self).fields@[i]);
            }
        }
    }

    /// The column names, in order.
    pub fn columns(&self) -> (r: Vec<String>)
        ensures
            r@.len() == self@.len(),
            forall|i: int| 0 <= i < r@.len() ==> (#[trigger] r@[i])@ == self@[i].0,
    {
        let mut out: Vec<String> = Vec::new();
        let mut i: usize = 0;
        while i < self.fields.len()
            invariant
                i <= self.fields@.len(),
                out@.len() == i,
                forall|j: int| 0 <= j < i ==> (#[trigger] out@[j])@ == self@[j].0,
            decreases self.fields@.len() - i,
        {
            out.push(self.fields[i].name.clone());
            i = i + 1;
        }
        out
    }

    /// A copy of this row.
    pub fn duplicate(&self) -> (r: Row)
        requires
            self.wf(),
        ensures
            r@ == self@,
            r.wf(),
    {
        let mut out: Vec<Field> = Vec::new();
        let mut i: usize = 0;
        while i < self.fields.len()
            invariant
                self.wf(),
                i <= self.fields@.len(),
                out@.len() == i,
                forall|j: int| 0 <= j < i ==> (#[trigger] out@[j]).name@ == self.fields@[j].name@
                    && out@[j].value@ == self.fields@[j].value@ && out@[j].value.wf(),
            decreases self.fields@.len() - i,
        {
            let f = &self.fields[i];
            out.push(Field { name: f.name.clone(), value: f.value.duplicate() });
            i = i + 1;
        }
        let r = Row { fields: out };
        assert(r@ =~= self@);
        r
    }
}

} // verus!
