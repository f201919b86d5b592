//! Status normalisation: raw status aliases mapped to one canonical status.

use vstd::prelude::*;
use crate::models::StatusMapping;
use crate::row::{Row, RowModel, field_of, set_field};
use crate::text::string_of;
use crate::text::chars_of;
use crate::value::{Scalar, Value};

verus! {

/// The column that holds a row's canonical status.
pub open spec fn status_column() -> Seq<char> {
    "normalized_status"@
}

/// The model of a status mapping: (aliases, canonical status).
pub open spec fn status_model(m: StatusMapping) -> (Seq<Seq<char>>, Seq<char>) {
    (m.source_status@.map_values(|a: String| a@), m.target_status@)
}

/// The canonical status of raw value `raw`: the target of the first mapping
/// whose aliases hold `raw` exactly; absent when none does.
pub open spec fn canonical_status(raw: Scalar, ms: Seq<(Seq<Seq<char>>, Seq<char>)>) -> Scalar
    decreases ms.len(),
{
    if ms.len() == 0 {
        Scalar::Absent
    } else if (match raw {
        Scalar::Str(t) => ms[0].0.contains(t),
        _ => false,
    }) {
        Scalar::Str(ms[0].1)
    } else {
        canonical_status(raw, ms.subrange(1, ms.len() as int))
    }
}

/// A row with its canonical status column set from column `field`.
pub open spec fn normalized_row(r: RowModel, field: Seq<char>, ms: Seq<(Seq<Seq<char>>, Seq<char>)>) -> RowModel {
    set_field(r, status_column(), canonical_status(field_of(r, field), ms))
}

fn aliases_hold(aliases: &Vec<String>, t: &String) -> (r: bool)
    ensures
        r == aliases@.map_values(|a: String| a@).contains(t@),
{
    let ghost view = aliases@.map_values(|a: String| a@);
    let mut i: usize = 0;
    while i < aliases.len()
        invariant
            i <= aliases@.len(),
            view == aliases@.map_values(|a: String| a@),
            forall|j: int| 0 <= j < i ==> view[j] != t@,
        decreases aliases@.len() - i,
    {
        if aliases[i] == *t {
            assert(view[i as int] == t@);
            return true;
        }
        i = i + 1;
    }
    false
}

/// The canonical status of one raw value.
pub fn canonical_status_exec(raw: &Value, mappings: &Vec<StatusMapping>) -> (r: Value)
    ensures
        r@ == canonical_status(raw@, mappings@.map_values(|m: StatusMapping| status_model(m))),
        r.wf(),
{
    let ghost ms = mappings@.map_values(|m: StatusMapping| status_model(m));
    let mut i: usize = 0;
    assert(ms.subrange(0, ms.len() as int) =~= ms);
    while i < mappings.len()
        invariant
            i <= mappings@.len(),
            ms == mappings@.map_values(|m: StatusMapping| status_model(m)),
            canonical_status(raw@, ms) == canonical_status(raw@, ms.subrange(i as int, ms.len() as int)),
        decreases mappings@.len() - i,
    {
        let rest = Ghost(ms.subrange(i as int, ms.len() as int));
        assert(rest@[0] == ms[i as int]);
        assert(rest@.subrange(1, rest@.len() as int) =~= ms.subrange(i + 1, ms.len() as int));
        let hit = match raw {
            Value::Text(t) => aliases_hold(&mappings[i].source_status, t),
            _ => false,
        };
        if hit {
            return Value::Text(mappings[i].target_status.clone());
        }
        i = i + 1;
    }
    Value::Null
}

/// Sets each row's `normalized_status` column from its column `status_field`.
pub fn normalize_status(rows: &Vec<Row>, status_field: &str, mappings: &Vec<StatusMapping>) -> (r: Vec<Row>)
    requires
        forall|i: int| 0 <= i < rows@.len() ==> (#[trigger] rows@[i]).wf(),
    ensures
        r@.len() == rows@.len(),
        forall|i: int| 0 <= i < r@.len() ==> (#[trigger] r@[i]).wf() && r@[i]@ == normalized_row(
            rows@[i]@,
            status_field@,
            mappings@.map_values(|m: StatusMapping| status_model(m)),
        ),
{
    let mut out: Vec<Row> = Vec::new();
    let mut i: usize = 0;
    while i < rows.len()
        invariant
            i <= rows@.len(),
            out@.len() == i,
            forall|j: int| 0 <= j < rows@.len() ==> (#[trigger] rows@[j]).wf(),
            forall|j: int| 0 <= j < i ==> (#[trigger] out@[j]).wf() && out@[j]@ == normalized_row(
                rows@[j]@,
                status_field@,
                mappings@.map_values(|m: StatusMapping| status_model(m)),
            ),
        decreases rows@.len() - i,
    {
        let mut row = rows[i].duplicate();
        let raw = row.get(status_field);
        let canon = canonical_status_exec(&raw, mappings);
        row.set(string_of(&chars_of("normalized_status")), canon);
        out.push(row);
        i = i + 1;
    }
    out
}

} // verus!
