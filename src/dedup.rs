//! Deduplication by key: the first row seen for each key value survives.
//!
//! A row whose key is absent never counts as a duplicate of another row, since
//! an absent key equals nothing, not even another absent key.

use vstd::prelude::*;
use crate::row::{Row, RowModel, field_of};
use crate::value::{Value, key_equal, same_key};

verus! {

/// Whether row `i` of `rs` shares its key with an earlier row.
pub open spec fn seen_before(rs: Seq<RowModel>, key: Seq<char>, i: int) -> bool {
    exists|j: int| 0 <= j < i && same_key(field_of(rs[j], key), field_of(rs[i], key))
}

/// The rows of `rs` that no earlier row shares a key with, in input order.
pub open spec fn dedup_rows(rs: Seq<RowModel>, key: Seq<char>) -> Seq<RowModel>
    decreases rs.len(),
{
    if rs.len() == 0 {
        Seq::empty()
    } else {
        let prev = dedup_rows(rs.drop_last(), key);
        if seen_before(rs, key, rs.len() - 1) {
            prev
        } else {
            prev.push(rs.last())
        }
    }
}

pub open spec fn rows_model(rs: Seq<Row>) -> Seq<RowModel> {
    rs.map_values(|r: Row| r@)
}

pub open spec fn all_wf(rs: Seq<Row>) -> bool {
    forall|i: int| 0 <= i < rs.len() ==> (#[trigger] rs[i]).wf()
}

/// Removes every row whose key an earlier row already has.
pub fn remove_duplicates(rows: &Vec<Row>, id_field: &str) -> (r: Vec<Row>)
    requires
        all_wf(rows@),
    ensures
        all_wf(r@),
        rows_model(r@) == dedup_rows(rows_model(rows@), id_field@),
{
    let ghost rs = rows_model(rows@);
    let mut keys: Vec<Value> = Vec::new();
    let mut out: Vec<Row> = Vec::new();
    let mut i: usize = 0;
    assert(rs.subrange(0, 0) =~= Seq::<RowModel>::empty());
    while i < rows.len()
        invariant
            i <= rows@.len(),
            rs == rows_model(rows@),
            all_wf(rows@),
            all_wf(out@),
            keys@.len() == i,
            forall|j: int| 0 <= j < i ==> (#[trigger] keys@[j])@ == field_of(rs[j], id_field@),
            rows_model(out@) == dedup_rows(rs.subrange(0, i as int), id_field@),
        decreases rows@.len() - i,
    {
        let k = rows[i].get(id_field);
        let mut dup = false;
        let mut j: usize = 0;
        while j < i
            invariant
                j <= i < rows@.len(),
                keys@.len() == i,
                k@ == field_of(rs[i as int], id_field@),
                forall|t: int| 0 <= t < i ==> (#[trigger] keys@[t])@ == field_of(rs[t], id_field@),
                dup == exists|t: int| 0 <= t < j && same_key(field_of(rs[t], id_field@), k@),
            decreases i - j,
        {
            if key_equal(&keys[j], &k) {
                dup = true;
            }
            j = j + 1;
        }
        let ghost pre = rs.subrange(0, i + 1);
        assert(pre.drop_last() =~= rs.subrange(0, i as int));
        assert(seen_before(pre, id_field@, i as int) == dup) by {
            if dup {
                let t = choose|t: int| 0 <= t < i && same_key(field_of(rs[t], id_field@), k@);
                assert(pre[t] == rs[t]);
            }
            if seen_before(pre, id_field@, i as int) {
                let t = choose|t: int| 0 <= t < i && same_key(field_of(pre[t], id_field@), field_of(pre[i as int], id_field@));
                assert(pre[t] == rs[t]);
            }
        }
        if !dup {
            out.push(rows[i].duplicate());
            assert(rows_model(out@) =~= dedup_rows(pre, id_field@));
        }
        keys.push(k);
        i = i + 1;
    }
    assert(rs.subrange(0, i as int) =~= rs);
    out
}

} // verus!
