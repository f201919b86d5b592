//! The matcher: joins two cleaned batches by key and canonical status and
//! splits the outcome into four partitions.
//!
//! A pair of rows whose keys match but whose canonical statuses differ lands
//! in no partition: only-in-A and only-in-B look at key presence alone. Callers
//! who need those pairs can find them as the key matches missing from
//! `matched` and `diff_amount`.

use vstd::prelude::*;
use crate::dedup::{all_wf, rows_model};
use crate::models::ReconciliationResult;
use crate::row::{Row, RowModel, field_of, has_field, set_field};
use crate::status::status_column;
use crate::text::{chars_of, string_of};
use crate::value::{Number, Value, amount_of, amount_value, key_equal, numbers_equal, same_key, same_number};

verus! {

/// Which columns a run compares: keys of A and B, amounts of A and B (empty
/// when not configured).
pub struct MatchColumns {
    pub id_a: Seq<char>,
    pub id_b: Seq<char>,
    pub amount_a: Seq<char>,
    pub amount_b: Seq<char>,
}

pub open spec fn key_match(ra: RowModel, rb: RowModel, c: MatchColumns) -> bool {
    same_key(field_of(ra, c.id_a), field_of(rb, c.id_b))
}

/// Canonical statuses agree; an absent status agrees with nothing.
pub open spec fn status_match(ra: RowModel, rb: RowModel) -> bool {
    same_key(field_of(ra, status_column()), field_of(rb, status_column()))
}

/// Amounts are compared only when both amount columns are configured.
pub open spec fn amounts_differ(ra: RowModel, rb: RowModel, c: MatchColumns) -> bool {
    c.amount_a.len() > 0 && c.amount_b.len() > 0 && !same_number(
        amount_of(field_of(ra, c.amount_a)),
        amount_of(field_of(rb, c.amount_b)),
    )
}

/// Name under which a column of B is kept in a joined row: as it is, or with
/// `_b` appended when A already has a column of that name.
pub open spec fn b_name(ra: RowModel, n: Seq<char>) -> Seq<char> {
    if has_field(ra, n) {
        n + "_b"@
    } else {
        n
    }
}

/// A joined row: the columns of A, then those of B.
pub open spec fn join_rows(ra: RowModel, rb: RowModel) -> RowModel
    decreases rb.len(),
{
    if rb.len() == 0 {
        ra
    } else {
        set_field(join_rows(ra, rb.drop_last()), b_name(ra, rb.last().0), rb.last().1)
    }
}

/// The joined rows of `ra` with the rows of `bs` that share its key and
/// status; with `diff` those whose amounts differ, else those whose amounts
/// agree or are not compared.
pub open spec fn pairs_for(ra: RowModel, bs: Seq<RowModel>, c: MatchColumns, diff: bool) -> Seq<RowModel>
    decreases bs.len(),
{
    if bs.len() == 0 {
        Seq::empty()
    } else {
        let p = pairs_for(ra, bs.drop_last(), c, diff);
        let rb = bs.last();
        if key_match(ra, rb, c) && status_match(ra, rb) && amounts_differ(ra, rb, c) == diff {
            p.push(join_rows(ra, rb))
        } else {
            p
        }
    }
}

/// `pairs_for` over every row of A, in A's order.
pub open spec fn pairs_all(as_: Seq<RowModel>, bs: Seq<RowModel>, c: MatchColumns, diff: bool) -> Seq<RowModel>
    decreases as_.len(),
{
    if as_.len() == 0 {
        Seq::empty()
    } else {
        pairs_all(as_.drop_last(), bs, c, diff) + pairs_for(as_.last(), bs, c, diff)
    }
}

/// Whether some row of `others` has a key equal to the key of `r`.
pub open spec fn key_present(r: RowModel, key: Seq<char>, others: Seq<RowModel>, other_key: Seq<char>) -> bool {
    exists|j: int| 0 <= j < others.len() && same_key(field_of(r, key), field_of(others[j], other_key))
}

/// The rows of `rs` whose key no row of `others` has, in order.
pub open spec fn unmatched(rs: Seq<RowModel>, key: Seq<char>, others: Seq<RowModel>, other_key: Seq<char>) -> Seq<RowModel>
    decreases rs.len(),
{
    if rs.len() == 0 {
        Seq::empty()
    } else {
        let p = unmatched(rs.drop_last(), key, others, other_key);
        if key_present(rs.last(), key, others, other_key) {
            p
        } else {
            p.push(rs.last())
        }
    }
}

/// A joined row.
pub fn join_row(ra: &Row, rb: &Row) -> (r: Row)
    requires
        ra.wf(),
        rb.wf(),
    ensures
        r.wf(),
        r@ == join_rows(ra@, rb@),
{
    let mut out = ra.duplicate();
    let mut i: usize = 0;
    assert(rb@.subrange(0, 0) =~= Seq::<(Seq<char>, crate::value::Scalar)>::empty());
    while i < rb.fields.len()
        invariant
            i <= rb.fields@.len(),
            rb@.len() == rb.fields@.len(),
            rb.wf(),
            out.wf(),
            out@ == join_rows(ra@, rb@.subrange(0, i as int)),
        decreases rb.fields@.len() - i,
    {
        let f = &rb.fields[i];
        let name = if ra.has_column(f.name.as_str()) {
            let mut cs = chars_of(f.name.as_str());
            cs.push('_');
            cs.push('b');
            proof {
                reveal_strlit("_b");
                assert(cs@ =~= f.name@ + "_b"@);
            }
            string_of(&cs)
        } else {
            f.name.clone()
        };
        let v = f.value.duplicate();
        assert(rb.fields@[i as int].value.wf());
        out.set(name, v);
        assert(rb@.subrange(0, i + 1).drop_last() =~= rb@.subrange(0, i as int));
        i = i + 1;
    }
    assert(rb@.subrange(0, i as int) =~= rb@);
    out
}

fn column_values(rows: &Vec<Row>, name: &str) -> (r: Vec<Value>)
    requires
        all_wf(rows@),
    ensures
        r@.len() == rows@.len(),
        forall|i: int| 0 <= i < r@.len() ==> (#[trigger] r@[i])@ == field_of(rows@[i]@, name@) && r@[i].wf(),
{
    let mut out: Vec<Value> = Vec::new();
    let mut i: usize = 0;
    while i < rows.len()
        invariant
            i <= rows@.len(),
            all_wf(rows@),
            out@.len() == i,
            forall|j: int| 0 <= j < i ==> (#[trigger] out@[j])@ == field_of(rows@[j]@, name@) && out@[j].wf(),
        decreases rows@.len() - i,
    {
        out.push(rows[i].get(name));
        i = i + 1;
    }
    out
}

fn column_amounts(rows: &Vec<Row>, name: &str) -> (r: Vec<Number>)
    requires
        all_wf(rows@),
    ensures
        r@.len() == rows@.len(),
        forall|i: int| 0 <= i < r@.len() ==> (#[trigger] r@[i]).pair() == amount_of(field_of(rows@[i]@, name@)),
{
    let mut out: Vec<Number> = Vec::new();
    let mut i: usize = 0;
    while i < rows.len()
        invariant
            i <= rows@.len(),
            all_wf(rows@),
            out@.len() == i,
            forall|j: int| 0 <= j < i ==> (#[trigger] out@[j]).pair() == amount_of(field_of(rows@[j]@, name@)),
        decreases rows@.len() - i,
    {
        let v = rows[i].get(name);
        out.push(amount_value(&v));
        i = i + 1;
    }
    out
}

/// Rows of `rs` whose key appears in no row of `others`.
fn unmatched_exec(rs: &Vec<Row>, key: &str, others: &Vec<Row>, other_key: &str) -> (r: Vec<Row>)
    requires
        all_wf(rs@),
        all_wf(others@),
    ensures
        all_wf(r@),
        rows_model(r@) == unmatched(rows_model(rs@), key@, rows_model(others@), other_key@),
{
    let ghost rm = rows_model(rs@);
    let ghost om = rows_model(others@);
    let ks = column_values(rs, key);
    let os = column_values(others, other_key);
    let mut out: Vec<Row> = Vec::new();
    let mut i: usize = 0;
    assert(rm.subrange(0, 0) =~= Seq::<RowModel>::empty());
    while i < rs.len()
        invariant
            i <= rs@.len(),
            rm == rows_model(rs@),
            om == rows_model(others@),
            all_wf(rs@),
            all_wf(out@),
            ks@.len() == rs@.len(),
            os@.len() == others@.len(),
            forall|j: int| 0 <= j < ks@.len() ==> (#[trigger] ks@[j])@ == field_of(rs@[j]@, key@),
            forall|j: int| 0 <= j < os@.len() ==> (#[trigger] os@[j])@ == field_of(others@[j]@, other_key@),
            rows_model(out@) == unmatched(rm.subrange(0, i as int), key@, om, other_key@),
        decreases rs@.len() - i,
    {
        let mut found = false;
        let mut j: usize = 0;
        while j < others.len()
            invariant
                i < rs@.len(),
                j <= others@.len(),
                om == rows_model(others@),
                os@.len() == others@.len(),
                ks@.len() == rs@.len(),
                ks@[i as int]@ == field_of(rs@[i as int]@, key@),
                forall|t: int| 0 <= t < os@.len() ==> (#[trigger] os@[t])@ == field_of(others@[t]@, other_key@),
                found == exists|t: int| 0 <= t < j && same_key(ks@[i as int]@, field_of(om[t], other_key@)),
            decreases others@.len() - j,
        {
            assert(om[j as int] == others@[j as int]@);
            if key_equal(&ks[i], &os[j]) {
                found = true;
            }
            j = j + 1;
        }
        let ghost pre = rm.subrange(0, i + 1);
        assert(pre.drop_last() =~= rm.subrange(0, i as int));
        assert(pre.last() == rs@[i as int]@);
        assert(key_present(pre.last(), key@, om, other_key@) == found);
        if !found {
            out.push(rs[i].duplicate());
            assert(rows_model(out@) =~= unmatched(pre, key@, om, other_key@));
        }
        i = i + 1;
    }
    assert(rm.subrange(0, i as int) =~= rm);
    out
}

/// Joins `a` and `b` and splits the outcome into matched rows, rows only in A,
/// rows only in B, and pairs whose amounts differ. Amounts are compared only
/// when both amount column names are non-empty.
pub fn perform_reconciliation(
    a: &Vec<Row>,
    b: &Vec<Row>,
    order_id_field: &str,
    bank_id_field: &str,
    order_amount_field: &str,
    bank_amount_field: &str,
) -> (r: ReconciliationResult)
    requires
        all_wf(a@),
        all_wf(b@),
    ensures
        ({
            let c = MatchColumns {
                id_a: order_id_field@,
                id_b: bank_id_field@,
                amount_a: order_amount_field@,
                amount_b: bank_amount_field@,
            };
            &&& rows_model(r.matched@) == pairs_all(rows_model(a@), rows_model(b@), c, false)
            &&& rows_model(r.diff_amount@) == pairs_all(rows_model(a@), rows_model(b@), c, true)
            &&& rows_model(r.only_in_a@) == unmatched(rows_model(a@), order_id_field@, rows_model(b@), bank_id_field@)
            &&& rows_model(r.only_in_b@) == unmatched(rows_model(b@), bank_id_field@, rows_model(a@), order_id_field@)
        }),
        all_wf(r.matched@),
        all_wf(r.diff_amount@),
        all_wf(r.only_in_a@),
        all_wf(r.only_in_b@),
{
    let ghost c = MatchColumns {
        id_a: order_id_field@,
        id_b: bank_id_field@,
        amount_a: order_amount_field@,
        amount_b: bank_amount_field@,
    };
    let ghost am = rows_model(a@);
    let ghost bm = rows_model(b@);
    let compare = order_amount_field.unicode_len() > 0 && bank_amount_field.unicode_len() > 0;
    let status = string_of(&chars_of("normalized_status"));
    let ka = column_values(a, order_id_field);
    let kb = column_values(b, bank_id_field);
    let sa = column_values(a, status.as_str());
    let sb = column_values(b, status.as_str());
    let ma = column_amounts(a, order_amount_field);
    let mb = column_amounts(b, bank_amount_field);
    let mut matched: Vec<Row> = Vec::new();
    let mut diff: Vec<Row> = Vec::new();
    let mut i: usize = 0;
    assert(am.subrange(0, 0) =~= Seq::<RowModel>::empty());
    while i < a.len()
        invariant
            i <= a@.len(),
            am == rows_model(a@),
            bm == rows_model(b@),
            all_wf(a@),
            all_wf(b@),
            all_wf(matched@),
            all_wf(diff@),
            compare == (c.amount_a.len() > 0 && c.amount_b.len() > 0),
            c == (MatchColumns {
                id_a: order_id_field@,
                id_b: bank_id_field@,
                amount_a: order_amount_field@,
                amount_b: bank_amount_field@,
            }),
            status@ == status_column(),
            ka@.len() == a@.len() && sa@.len() == a@.len() && ma@.len() == a@.len(),
            kb@.len() == b@.len() && sb@.len() == b@.len() && mb@.len() == b@.len(),
            forall|j: int| 0 <= j < a@.len() ==> (#[trigger] ka@[j])@ == field_of(a@[j]@, c.id_a),
            forall|j: int| 0 <= j < a@.len() ==> (#[trigger] sa@[j])@ == field_of(a@[j]@, status_column()),
            forall|j: int| 0 <= j < a@.len() ==> (#[trigger] ma@[j]).pair() == amount_of(field_of(a@[j]@, c.amount_a)),
            forall|j: int| 0 <= j < b@.len() ==> (#[trigger] kb@[j])@ == field_of(b@[j]@, c.id_b),
            forall|j: int| 0 <= j < b@.len() ==> (#[trigger] sb@[j])@ == field_of(b@[j]@, status_column()),
            forall|j: int| 0 <= j < b@.len() ==> (#[trigger] mb@[j]).pair() == amount_of(field_of(b@[j]@, c.amount_b)),
            rows_model(matched@) == pairs_all(am.subrange(0, i as int), bm, c, false),
            rows_model(diff@) == pairs_all(am.subrange(0, i as int), bm, c, true),
        decreases a@.len() - i,
    {
        let ghost ra = am[i as int];
        assert(ra == a@[i as int]@);
        let ghost m0 = rows_model(matched@);
        let ghost d0 = rows_model(diff@);
        let mut j: usize = 0;
        assert(bm.subrange(0, 0) =~= Seq::<RowModel>::empty());
        assert(m0 + pairs_for(ra, bm.subrange(0, 0), c, false) =~= m0);
        assert(d0 + pairs_for(ra, bm.subrange(0, 0), c, true) =~= d0);
        while j < b.len()
            invariant
                i < a@.len(),
                j <= b@.len(),
                ra == a@[i as int]@,
                am == rows_model(a@),
                bm == rows_model(b@),
                all_wf(a@),
                all_wf(b@),
                all_wf(matched@),
                all_wf(diff@),
                compare == (c.amount_a.len() > 0 && c.amount_b.len() > 0),
                status@ == status_column(),
                ka@.len() == a@.len() && sa@.len() == a@.len() && ma@.len() == a@.len(),
                kb@.len() == b@.len() && sb@.len() == b@.len() && mb@.len() == b@.len(),
                ka@[i as int]@ == field_of(ra, c.id_a),
                sa@[i as int]@ == field_of(ra, status_column()),
                ma@[i as int].pair() == amount_of(field_of(ra, c.amount_a)),
                forall|t: int| 0 <= t < b@.len() ==> (#[trigger] kb@[t])@ == field_of(b@[t]@, c.id_b),
                forall|t: int| 0 <= t < b@.len() ==> (#[trigger] sb@[t])@ == field_of(b@[t]@, status_column()),
                forall|t: int| 0 <= t < b@.len() ==> (#[trigger] mb@[t]).pair() == amount_of(field_of(b@[t]@, c.amount_b)),
                rows_model(matched@) == m0 + pairs_for(ra, bm.subrange(0, j as int), c, false),
                rows_model(diff@) == d0 + pairs_for(ra, bm.subrange(0, j as int), c, true),
            decreases b@.len() - j,
        {
            let ghost pre = bm.subrange(0, j + 1);
            assert(pre.drop_last() =~= bm.subrange(0, j as int));
            assert(pre.last() == b@[j as int]@);
            if key_equal(&ka[i], &kb[j]) && key_equal(&sa[i], &sb[j]) {
                let differ = compare && !numbers_equal(ma[i], mb[j]);
                let joined = join_row(&a[i], &b[j]);
                assert(key_match(ra, pre.last(), c));
                assert(status_match(ra, pre.last()));
                assert(amounts_differ(ra, pre.last(), c) == differ);
                assert(joined@ == join_rows(ra, pre.last()));
                let ghost jv = joined@;
                if differ {
                    let ghost before = rows_model(diff@);
                    diff.push(joined);
                    assert(rows_model(diff@) =~= before.push(jv));
                    assert(pairs_for(ra, pre, c, true) == pairs_for(ra, bm.subrange(0, j as int), c, true).push(jv));
                    assert(rows_model(diff@) =~= d0 + pairs_for(ra, pre, c, true));
                } else {
                    let ghost before = rows_model(matched@);
                    matched.push(joined);
                    assert(rows_model(matched@) =~= before.push(jv));
                    assert(pairs_for(ra, pre, c, false) == pairs_for(ra, bm.subrange(0, j as int), c, false).push(jv));
                    assert(rows_model(matched@) =~= m0 + pairs_for(ra, pre, c, false));
                }
            }
            j = j + 1;
        }
        let ghost apre = am.subrange(0, i + 1);
        assert(apre.drop_last() =~= am.subrange(0, i as int));
        assert(bm.subrange(0, j as int) =~= bm);
        i = i + 1;
    }
    assert(am.subrange(0, i as int) =~= am);
    let only_in_a = unmatched_exec(a, order_id_field, b, bank_id_field);
    let only_in_b = unmatched_exec(b, bank_id_field, a, order_id_field);
    ReconciliationResult { matched, only_in_a, only_in_b, diff_amount: diff }
}

} // verus!
