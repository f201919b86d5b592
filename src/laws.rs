//! Properties that relate the stages to each other, proved over their models.

use vstd::prelude::*;
use crate::dates::CalendarDate;
use crate::dedup::{dedup_rows, seen_before};
use crate::matcher::{MatchColumns, pairs_all, pairs_for, status_match};
use crate::order_manager::{BatchModel, has_key, in_window, put_result, sorted_by_date, window_rows, without_key};
use crate::row::{RowModel, field_of, find_field, lemma_find_field_bound, set_field};
use crate::rules::{chain_effect, clean_row, rule_effect};
use crate::status::{canonical_status, normalized_row, status_column};
use crate::value::{Scalar, count_param, same_key};

verus! {

/// Whether `op` is one of the operation tags that the rule pipeline knows.
pub open spec fn is_known_op(op: Seq<char>) -> bool {
    op == "DEL_PRE"@ || op == "DEL_AFTER"@ || op == "DEL_CHAR"@ || op == "REPLACE_TWO_CHAR"@
        || op == "BRA_VALUE"@ || op == "DIVIDE_NUMBER"@ || op == "ABS_VALUE"@ || op == "ADD_CHAR_PRE"@
        || op == "ADD_CHAR_AFTER"@ || op == "XENDIT_TIME"@
}

/// A rule with an unknown operation tag passes any value through unchanged,
/// wherever it stands in a chain: inserting it changes no chain's output.
pub proof fn lemma_unknown_rule_is_identity(
    v: Scalar,
    rules: Seq<(Seq<char>, Seq<char>)>,
    k: int,
    op: Seq<char>,
    p: Seq<char>,
)
    requires
        !is_known_op(op),
        0 <= k <= rules.len(),
    ensures
        rule_effect(v, op, p) == v,
        chain_effect(v, rules.insert(k, (op, p))) == chain_effect(v, rules),
    decreases rules.len(),
{
    let s = rules.insert(k, (op, p));
    if k == rules.len() {
        assert(s.drop_last() =~= rules);
        assert(rule_effect(chain_effect(v, rules), op, p) == chain_effect(v, rules));
    } else {
        assert(s.drop_last() =~= rules.drop_last().insert(k, (op, p)));
        lemma_unknown_rule_is_identity(v, rules.drop_last(), k, op, p);
    }
}

/// `DEL_AFTER(n)` on text keeps exactly its first `n` characters when it has at
/// least `n`, and the whole text otherwise.
pub proof fn lemma_del_after_truncates(t: Seq<char>, p: Seq<char>, n: nat)
    requires
        count_param(p) == Some(n),
    ensures
        rule_effect(Scalar::Str(t), "DEL_AFTER"@, p) == Scalar::Str(
            if n <= t.len() { t.subrange(0, n as int) } else { t },
        ),
        t.len() >= n ==> (rule_effect(Scalar::Str(t), "DEL_AFTER"@, p) matches Scalar::Str(u) && u.len() == n),
{
    reveal_strlit("DEL_PRE");
    reveal_strlit("DEL_AFTER");
    assert("DEL_AFTER"@[4] != "DEL_PRE"@[4]);
    assert("DEL_AFTER"@ != "DEL_PRE"@);
    if n > t.len() {
        assert(t.subrange(0, t.len() as int) =~= t);
    }
}

proof fn lemma_find_field_same_names(r1: RowModel, r2: RowModel, name: Seq<char>)
    requires
        r1.len() == r2.len(),
        forall|i: int| 0 <= i < r1.len() ==> (#[trigger] r1[i]).0 == r2[i].0,
    ensures
        find_field(r1, name) == find_field(r2, name),
    decreases r1.len(),
{
    if r1.len() > 0 {
        lemma_find_field_same_names(r1.drop_last(), r2.drop_last(), name);
    }
}

/// Reading a column right after setting it gives the value set.
pub proof fn lemma_field_of_set(r: RowModel, name: Seq<char>, v: Scalar)
    ensures
        field_of(set_field(r, name, v), name) == v,
{
    lemma_find_field_bound(r, name);
    let k = find_field(r, name);
    if k < r.len() {
        let u = r.update(k as int, (name, v));
        lemma_find_field_same_names(r, u, name);
    } else {
        assert(r.push((name, v)).drop_last() =~= r);
    }
}

/// A raw status that no alias set holds has no canonical status.
pub proof fn lemma_unaliased_status_absent(raw: Scalar, ms: Seq<(Seq<Seq<char>>, Seq<char>)>)
    requires
        forall|i: int| 0 <= i < ms.len() ==> !(raw matches Scalar::Str(t) && (#[trigger] ms[i]).0.contains(t)),
    ensures
        canonical_status(raw, ms) == Scalar::Absent,
    decreases ms.len(),
{
    if ms.len() > 0 {
        let rest = ms.subrange(1, ms.len() as int);
        assert(!(raw matches Scalar::Str(t) && ms[0].0.contains(t)));
        assert forall|i: int| 0 <= i < rest.len() implies !(raw matches Scalar::Str(t) && (#[trigger] rest[i]).0.contains(t)) by {
            assert(rest[i] == ms[i + 1]);
        }
        lemma_unaliased_status_absent(raw, rest);
    }
}

proof fn lemma_pairs_for_skip_b(ra: RowModel, bs: Seq<RowModel>, k: int, rb: RowModel, c: MatchColumns, diff: bool)
    requires
        0 <= k <= bs.len(),
        field_of(rb, status_column()) == Scalar::Absent,
    ensures
        pairs_for(ra, bs.insert(k, rb), c, diff) == pairs_for(ra, bs, c, diff),
    decreases bs.len(),
{
    let s = bs.insert(k, rb);
    if k == bs.len() {
        assert(s.drop_last() =~= bs);
        assert(!status_match(ra, rb));
    } else {
        assert(s.drop_last() =~= bs.drop_last().insert(k, rb));
        lemma_pairs_for_skip_b(ra, bs.drop_last(), k, rb, c, diff);
    }
}

proof fn lemma_pairs_for_absent_a(ra: RowModel, bs: Seq<RowModel>, c: MatchColumns, diff: bool)
    requires
        field_of(ra, status_column()) == Scalar::Absent,
    ensures
        pairs_for(ra, bs, c, diff) == Seq::<RowModel>::empty(),
    decreases bs.len(),
{
    if bs.len() > 0 {
        lemma_pairs_for_absent_a(ra, bs.drop_last(), c, diff);
    }
}

proof fn lemma_pairs_all_skip_b(as_: Seq<RowModel>, bs: Seq<RowModel>, k: int, rb: RowModel, c: MatchColumns, diff: bool)
    requires
        0 <= k <= bs.len(),
        field_of(rb, status_column()) == Scalar::Absent,
    ensures
        pairs_all(as_, bs.insert(k, rb), c, diff) == pairs_all(as_, bs, c, diff),
    decreases as_.len(),
{
    if as_.len() > 0 {
        lemma_pairs_all_skip_b(as_.drop_last(), bs, k, rb, c, diff);
        lemma_pairs_for_skip_b(as_.last(), bs, k, rb, c, diff);
    }
}

proof fn lemma_pairs_all_skip_a(as_: Seq<RowModel>, bs: Seq<RowModel>, k: int, ra: RowModel, c: MatchColumns, diff: bool)
    requires
        0 <= k <= as_.len(),
        field_of(ra, status_column()) == Scalar::Absent,
    ensures
        pairs_all(as_.insert(k, ra), bs, c, diff) == pairs_all(as_, bs, c, diff),
    decreases as_.len(),
{
    let s = as_.insert(k, ra);
    if k == as_.len() {
        assert(s.drop_last() =~= as_);
        lemma_pairs_for_absent_a(ra, bs, c, diff);
        assert(pairs_all(as_, bs, c, diff) + Seq::<RowModel>::empty() =~= pairs_all(as_, bs, c, diff));
    } else {
        assert(s.drop_last() =~= as_.drop_last().insert(k, ra));
        lemma_pairs_all_skip_a(as_.drop_last(), bs, k, ra, c, diff);
    }
}

/// A row whose raw status no alias set holds gets an absent canonical status,
/// and then takes part in no matched pair and no amount-mismatch pair: adding
/// it anywhere to either side leaves both partitions as they were.
pub proof fn lemma_unaliased_row_never_pairs(
    r: RowModel,
    status_field: Seq<char>,
    ms: Seq<(Seq<Seq<char>>, Seq<char>)>,
    as_: Seq<RowModel>,
    bs: Seq<RowModel>,
    k: int,
    c: MatchColumns,
    diff: bool,
)
    requires
        forall|i: int| 0 <= i < ms.len() ==> !(field_of(r, status_field) matches Scalar::Str(t) && (#[trigger] ms[i]).0.contains(t)),
    ensures
        field_of(normalized_row(r, status_field, ms), status_column()) == Scalar::Absent,
        0 <= k <= as_.len() ==> pairs_all(as_.insert(k, normalized_row(r, status_field, ms)), bs, c, diff) == pairs_all(as_, bs, c, diff),
        0 <= k <= bs.len() ==> pairs_all(as_, bs.insert(k, normalized_row(r, status_field, ms)), c, diff) == pairs_all(as_, bs, c, diff),
{
    lemma_unaliased_status_absent(field_of(r, status_field), ms);
    lemma_field_of_set(r, status_column(), canonical_status(field_of(r, status_field), ms));
    let n = normalized_row(r, status_field, ms);
    if 0 <= k <= as_.len() {
        lemma_pairs_all_skip_a(as_, bs, k, n, c, diff);
    }
    if 0 <= k <= bs.len() {
        lemma_pairs_all_skip_b(as_, bs, k, n, c, diff);
    }
}

proof fn lemma_dedup_members(rs: Seq<RowModel>, key: Seq<char>)
    ensures
        dedup_rows(rs, key).len() <= rs.len(),
        forall|a: int| 0 <= a < dedup_rows(rs, key).len() ==> exists|j: int| 0 <= j < rs.len()
            && #[trigger] dedup_rows(rs, key)[a] == rs[j] && !seen_before(rs, key, j),
    decreases rs.len(),
{
    if rs.len() > 0 {
        let p = rs.drop_last();
        lemma_dedup_members(p, key);
        let out = dedup_rows(rs, key);
        assert forall|a: int| 0 <= a < out.len() implies exists|j: int| 0 <= j < rs.len()
            && #[trigger] out[a] == rs[j] && !seen_before(rs, key, j) by {
            if a < dedup_rows(p, key).len() {
                let j = choose|j: int| 0 <= j < p.len() && dedup_rows(p, key)[a] == p[j] && !seen_before(p, key, j);
                assert(out[a] == rs[j]);
                if seen_before(rs, key, j) {
                    let t = choose|t: int| 0 <= t < j && same_key(field_of(rs[t], key), field_of(rs[j], key));
                    assert(p[t] == rs[t]);
                }
            } else {
                assert(out[a] == rs[rs.len() - 1]);
            }
        }
    }
}

/// After deduplication no two rows share a key, and every surviving row is
/// an input row that no earlier input row shares its key with, so of two rows
/// with equal keys only the first seen can survive.
pub proof fn lemma_dedup_keeps_first(rs: Seq<RowModel>, key: Seq<char>)
    ensures
        forall|a: int, b: int| 0 <= a < b < dedup_rows(rs, key).len() ==> !same_key(
            field_of(#[trigger] dedup_rows(rs, key)[a], key),
            field_of(#[trigger] dedup_rows(rs, key)[b], key),
        ),
        forall|a: int| 0 <= a < dedup_rows(rs, key).len() ==> exists|j: int| 0 <= j < rs.len()
            && #[trigger] dedup_rows(rs, key)[a] == rs[j] && !seen_before(rs, key, j),
    decreases rs.len(),
{
    lemma_dedup_members(rs, key);
    if rs.len() > 0 {
        let p = rs.drop_last();
        lemma_dedup_keeps_first(p, key);
        lemma_dedup_members(p, key);
        let out = dedup_rows(rs, key);
        let po = dedup_rows(p, key);
        assert forall|a: int, b: int| 0 <= a < b < out.len() implies !same_key(
            field_of(#[trigger] out[a], key),
            field_of(#[trigger] out[b], key),
        ) by {
            if b < po.len() {
                assert(out[a] == po[a] && out[b] == po[b]);
            } else {
                let last = rs.len() - 1;
                assert(out[b] == rs[last]);
                assert(out[a] == po[a]);
                let j = choose|j: int| 0 <= j < p.len() && po[a] == p[j] && !seen_before(p, key, j);
                assert(p[j] == rs[j]);
                assert(!seen_before(rs, key, last));
            }
        }
    }
}

proof fn lemma_window_concat(s1: Seq<BatchModel>, s2: Seq<BatchModel>, cfg: Seq<char>, src: Seq<char>, lo: CalendarDate, hi: CalendarDate)
    ensures
        window_rows(s1 + s2, cfg, src, lo, hi) == window_rows(s1, cfg, src, lo, hi) + window_rows(s2, cfg, src, lo, hi),
    decreases s2.len(),
{
    if s2.len() == 0 {
        assert(s1 + s2 =~= s1);
        assert(window_rows(s1, cfg, src, lo, hi) + Seq::<RowModel>::empty() =~= window_rows(s1, cfg, src, lo, hi));
    } else {
        assert((s1 + s2).drop_last() =~= s1 + s2.drop_last());
        lemma_window_concat(s1, s2.drop_last(), cfg, src, lo, hi);
        let w1 = window_rows(s1, cfg, src, lo, hi);
        let w2 = window_rows(s2.drop_last(), cfg, src, lo, hi);
        assert(w1 + w2 + s2.last().3 =~= w1 + (w2 + s2.last().3));
    }
}

proof fn lemma_window_missing(s: Seq<BatchModel>, cfg: Seq<char>, src: Seq<char>, d: CalendarDate)
    requires
        forall|t: int| 0 <= t < s.len() ==> !has_key(#[trigger] s[t], cfg, src, d),
    ensures
        window_rows(s, cfg, src, d, d) == Seq::<RowModel>::empty(),
    decreases s.len(),
{
    if s.len() > 0 {
        assert forall|t: int| 0 <= t < s.drop_last().len() implies !has_key(#[trigger] s.drop_last()[t], cfg, src, d) by {
            assert(s.drop_last()[t] == s[t]);
        }
        lemma_window_missing(s.drop_last(), cfg, src, d);
        assert(!has_key(s[s.len() - 1], cfg, src, d));
        assert(!in_window(s.last(), cfg, src, d, d));
    }
}

/// Storing two batches in turn under one (configuration, source, date) key
/// leaves exactly the second batch's rows under that key: nothing merged,
/// nothing duplicated.
pub proof fn lemma_put_twice_keeps_second(
    m0: Seq<BatchModel>,
    m1: Seq<BatchModel>,
    m2: Seq<BatchModel>,
    cfg: Seq<char>,
    src: Seq<char>,
    d: CalendarDate,
    rows1: Seq<RowModel>,
    rows2: Seq<RowModel>,
)
    requires
        put_result(m0, m1, (cfg, src, d, rows1)),
        put_result(m1, m2, (cfg, src, d, rows2)),
    ensures
        window_rows(m2, cfg, src, d, d) == rows2,
{
    let nb = (cfg, src, d, rows2);
    let (r, pos) = choose|r: Seq<BatchModel>, pos: int| {
        &&& without_key(m1, r, nb.0, nb.1, nb.2)
        &&& 0 <= pos <= r.len()
        &&& m2 == r.insert(pos, nb)
        &&& forall|t: int| 0 <= t < pos ==> crate::dates::date_le(#[trigger] r[t].2, nb.2)
        &&& pos < r.len() ==> !crate::dates::date_le(r[pos].2, nb.2)
    };
    let left = r.subrange(0, pos);
    let right = r.subrange(pos, r.len() as int);
    assert(m2 =~= left + seq![nb] + right);
    assert forall|t: int| 0 <= t < left.len() implies !has_key(#[trigger] left[t], cfg, src, d) by {
        assert(left[t] == r[t]);
    }
    assert forall|t: int| 0 <= t < right.len() implies !has_key(#[trigger] right[t], cfg, src, d) by {
        assert(right[t] == r[pos + t]);
    }
    lemma_window_missing(left, cfg, src, d);
    lemma_window_missing(right, cfg, src, d);
    lemma_window_concat(left + seq![nb], right, cfg, src, d, d);
    lemma_window_concat(left, seq![nb], cfg, src, d, d);
    assert(seq![nb].drop_last() =~= Seq::<BatchModel>::empty());
    assert(seq![nb].last() == nb);
    assert(in_window(nb, cfg, src, d, d));
    assert(window_rows(seq![nb].drop_last(), cfg, src, d, d) == Seq::<RowModel>::empty());
    assert(Seq::<RowModel>::empty() + rows2 =~= rows2);
    assert(window_rows(seq![nb], cfg, src, d, d) =~= rows2);
    assert(Seq::<RowModel>::empty() + rows2 + Seq::<RowModel>::empty() =~= rows2);
}

/// Deduplication keeps input order: the surviving rows are the input rows at
/// strictly increasing positions, and those positions are exactly the rows
/// that no earlier row shares a key with.
pub proof fn lemma_dedup_preserves_order(rs: Seq<RowModel>, key: Seq<char>) -> (idx: Seq<int>)
    ensures
        idx.len() == dedup_rows(rs, key).len(),
        forall|a: int| 0 <= a < idx.len() ==> 0 <= #[trigger] idx[a] < rs.len() && dedup_rows(rs, key)[a] == rs[idx[a]],
        forall|a: int, b: int| 0 <= a < b < idx.len() ==> #[trigger] idx[a] < #[trigger] idx[b],
        forall|j: int| 0 <= j < rs.len() ==> (!seen_before(rs, key, j) <==> idx.contains(j)),
    decreases rs.len(),
{
    if rs.len() == 0 {
        Seq::empty()
    } else {
        let p = rs.drop_last();
        let pi = lemma_dedup_preserves_order(p, key);
        let last = rs.len() - 1;
        assert forall|j: int| 0 <= j < p.len() implies seen_before(p, key, j) == seen_before(rs, key, j) by {
            if seen_before(p, key, j) {
                let t = choose|t: int| 0 <= t < j && same_key(field_of(p[t], key), field_of(p[j], key));
                assert(p[t] == rs[t] && p[j] == rs[j]);
            }
            if seen_before(rs, key, j) {
                let t = choose|t: int| 0 <= t < j && same_key(field_of(rs[t], key), field_of(rs[j], key));
                assert(p[t] == rs[t] && p[j] == rs[j]);
            }
        }
        if seen_before(rs, key, last) {
            assert forall|a: int| 0 <= a < pi.len() implies 0 <= #[trigger] pi[a] < rs.len() && dedup_rows(rs, key)[a] == rs[pi[a]] by {
                assert(p[pi[a]] == rs[pi[a]]);
            }
            assert forall|j: int| 0 <= j < rs.len() implies (!seen_before(rs, key, j) <==> pi.contains(j)) by {
                if j == last {
                    if pi.contains(j) {
                        let a = choose|a: int| 0 <= a < pi.len() && pi[a] == j;
                    }
                }
            }
            pi
        } else {
            let idx = pi.push(last);
            assert forall|a: int| 0 <= a < idx.len() implies 0 <= #[trigger] idx[a] < rs.len() && dedup_rows(rs, key)[a] == rs[idx[a]] by {
                if a < pi.len() {
                    assert(idx[a] == pi[a]);
                    assert(p[pi[a]] == rs[pi[a]]);
                }
            }
            assert forall|a: int, b: int| 0 <= a < b < idx.len() implies #[trigger] idx[a] < #[trigger] idx[b] by {
                if b < pi.len() {
                    assert(idx[a] == pi[a] && idx[b] == pi[b]);
                } else {
                    assert(idx[a] == pi[a]);
                }
            }
            assert forall|j: int| 0 <= j < rs.len() implies (!seen_before(rs, key, j) <==> idx.contains(j)) by {
                if j < last {
                    if pi.contains(j) {
                        let a = choose|a: int| 0 <= a < pi.len() && pi[a] == j;
                        assert(idx[a] == j);
                    }
                    if idx.contains(j) {
                        let a = choose|a: int| 0 <= a < idx.len() && idx[a] == j;
                        if a < pi.len() {
                            assert(pi[a] == j);
                        }
                    }
                } else {
                    assert(idx[idx.len() - 1] == last);
                }
            }
            idx
        }
    }
}

/// The batches of `bs` inside a window, in store order.
pub open spec fn window_batches(bs: Seq<BatchModel>, cfg: Seq<char>, src: Seq<char>, lo: CalendarDate, hi: CalendarDate) -> Seq<BatchModel>
    decreases bs.len(),
{
    if bs.len() == 0 {
        Seq::empty()
    } else {
        let p = window_batches(bs.drop_last(), cfg, src, lo, hi);
        if in_window(bs.last(), cfg, src, lo, hi) {
            p.push(bs.last())
        } else {
            p
        }
    }
}

/// The rows of `bs`, batch after batch.
pub open spec fn concat_rows(bs: Seq<BatchModel>) -> Seq<RowModel>
    decreases bs.len(),
{
    if bs.len() == 0 {
        Seq::empty()
    } else {
        concat_rows(bs.drop_last()) + bs.last().3
    }
}

/// A window load over a store kept in date order yields the rows of exactly
/// the batches of that source dated inside the window, batch after batch in
/// ascending date order.
pub proof fn lemma_window_in_date_order(m: Seq<BatchModel>, cfg: Seq<char>, src: Seq<char>, lo: CalendarDate, hi: CalendarDate)
    requires
        sorted_by_date(m),
    ensures
        window_rows(m, cfg, src, lo, hi) == concat_rows(window_batches(m, cfg, src, lo, hi)),
        sorted_by_date(window_batches(m, cfg, src, lo, hi)),
        forall|k: int| 0 <= k < window_batches(m, cfg, src, lo, hi).len() ==> exists|j: int| 0 <= j < m.len()
            && #[trigger] window_batches(m, cfg, src, lo, hi)[k] == m[j] && in_window(m[j], cfg, src, lo, hi),
        forall|j: int| 0 <= j < m.len() && in_window(#[trigger] m[j], cfg, src, lo, hi) ==> window_batches(m, cfg, src, lo, hi).contains(m[j]),
    decreases m.len(),
{
    if m.len() > 0 {
        let p = m.drop_last();
        assert(sorted_by_date(p)) by {
            assert forall|i: int, j: int| 0 <= i < j < p.len() implies crate::dates::date_le(#[trigger] p[i].2, #[trigger] p[j].2) by {
                assert(p[i] == m[i] && p[j] == m[j]);
            }
        }
        lemma_window_in_date_order(p, cfg, src, lo, hi);
        let pw = window_batches(p, cfg, src, lo, hi);
        let w = window_batches(m, cfg, src, lo, hi);
        if in_window(m.last(), cfg, src, lo, hi) {
            assert(w.drop_last() =~= pw);
            assert forall|i: int, j: int| 0 <= i < j < w.len() implies crate::dates::date_le(#[trigger] w[i].2, #[trigger] w[j].2) by {
                if j < pw.len() {
                    assert(w[i] == pw[i] && w[j] == pw[j]);
                } else {
                    assert(w[i] == pw[i]);
                    let t = choose|t: int| 0 <= t < p.len() && pw[i] == p[t] && in_window(p[t], cfg, src, lo, hi);
                    assert(p[t] == m[t]);
                    assert(w[j] == m[m.len() - 1]);
                }
            }
            assert forall|k: int| 0 <= k < w.len() implies exists|j: int| 0 <= j < m.len()
                && #[trigger] w[k] == m[j] && in_window(m[j], cfg, src, lo, hi) by {
                if k < pw.len() {
                    let t = choose|t: int| 0 <= t < p.len() && pw[k] == p[t] && in_window(p[t], cfg, src, lo, hi);
                    assert(p[t] == m[t]);
                    assert(w[k] == pw[k]);
                } else {
                    assert(w[k] == m[m.len() - 1]);
                }
            }
            assert forall|j: int| 0 <= j < m.len() && in_window(#[trigger] m[j], cfg, src, lo, hi) implies w.contains(m[j]) by {
                if j < p.len() {
                    assert(p[j] == m[j]);
                    assert(pw.contains(p[j]));
                    let k = choose|k: int| 0 <= k < pw.len() && pw[k] == p[j];
                    assert(w[k] == pw[k]);
                } else {
                    assert(w[w.len() - 1] == m[j]);
                }
            }
        } else {
            assert(w == pw);
            assert forall|k: int| 0 <= k < w.len() implies exists|j: int| 0 <= j < m.len()
                && #[trigger] w[k] == m[j] && in_window(m[j], cfg, src, lo, hi) by {
                let t = choose|t: int| 0 <= t < p.len() && pw[k] == p[t] && in_window(p[t], cfg, src, lo, hi);
                assert(p[t] == m[t]);
            }
            assert forall|j: int| 0 <= j < m.len() && in_window(#[trigger] m[j], cfg, src, lo, hi) implies w.contains(m[j]) by {
                if j < p.len() {
                    assert(p[j] == m[j]);
                    assert(pw.contains(p[j]));
                }
            }
        }
    }
}

/// `r2` is the rule chain `r` with rules of unknown operation tags inserted
/// at any positions.
pub open spec fn with_unknown_rules(r2: Seq<(Seq<char>, Seq<char>)>, r: Seq<(Seq<char>, Seq<char>)>) -> bool
    decreases r2.len(),
{
    if r2.len() == 0 {
        r.len() == 0
    } else if !is_known_op(r2.last().0) && with_unknown_rules(r2.drop_last(), r) {
        true
    } else {
        r.len() > 0 && r2.last() == r.last() && with_unknown_rules(r2.drop_last(), r.drop_last())
    }
}

/// Mapping list `ms2` is `ms` with unknown-tag rules inserted anywhere in any
/// of its rule chains.
pub open spec fn mappings_with_unknown_rules(
    ms2: Seq<(Seq<char>, Seq<char>, Seq<(Seq<char>, Seq<char>)>, bool)>,
    ms: Seq<(Seq<char>, Seq<char>, Seq<(Seq<char>, Seq<char>)>, bool)>,
) -> bool {
    ms2.len() == ms.len() && forall|i: int| 0 <= i < ms.len() ==> {
        &&& (#[trigger] ms2[i]).0 == ms[i].0
        &&& ms2[i].1 == ms[i].1
        &&& ms2[i].3 == ms[i].3
        &&& with_unknown_rules(ms2[i].2, ms[i].2)
    }
}

/// Unknown-tag rules inserted anywhere in a chain change nothing.
pub proof fn lemma_unknown_rules_chain(v: Scalar, r2: Seq<(Seq<char>, Seq<char>)>, r: Seq<(Seq<char>, Seq<char>)>)
    requires
        with_unknown_rules(r2, r),
    ensures
        chain_effect(v, r2) == chain_effect(v, r),
    decreases r2.len(),
{
    if r2.len() > 0 {
        if !is_known_op(r2.last().0) && with_unknown_rules(r2.drop_last(), r) {
            lemma_unknown_rules_chain(v, r2.drop_last(), r);
            lemma_unknown_rule_is_identity(chain_effect(v, r2.drop_last()), Seq::empty(), 0, r2.last().0, r2.last().1);
        } else {
            lemma_unknown_rules_chain(v, r2.drop_last(), r.drop_last());
        }
    }
}

/// Cleaning with mapping lists that differ only by unknown-tag rules inserted
/// in their chains gives the same rows: such rules never change a staged value.
pub proof fn lemma_unknown_rules_in_cleaning(
    rs: Seq<RowModel>,
    ms2: Seq<(Seq<char>, Seq<char>, Seq<(Seq<char>, Seq<char>)>, bool)>,
    ms: Seq<(Seq<char>, Seq<char>, Seq<(Seq<char>, Seq<char>)>, bool)>,
)
    requires
        mappings_with_unknown_rules(ms2, ms),
    ensures
        forall|r: RowModel| clean_row(r, ms2) == clean_row(r, ms),
        rs.map_values(|x: RowModel| clean_row(x, ms2)) == rs.map_values(|x: RowModel| clean_row(x, ms)),
{
    assert forall|r: RowModel| clean_row(r, ms2) == clean_row(r, ms) by {
        lemma_clean_row_unknown(r, ms2, ms);
    }
    assert(rs.map_values(|x: RowModel| clean_row(x, ms2)) =~= rs.map_values(|x: RowModel| clean_row(x, ms)));
}

proof fn lemma_clean_row_unknown(
    r: RowModel,
    ms2: Seq<(Seq<char>, Seq<char>, Seq<(Seq<char>, Seq<char>)>, bool)>,
    ms: Seq<(Seq<char>, Seq<char>, Seq<(Seq<char>, Seq<char>)>, bool)>,
)
    requires
        mappings_with_unknown_rules(ms2, ms),
    ensures
        clean_row(r, ms2) == clean_row(r, ms),
    decreases ms.len(),
{
    if ms.len() > 0 {
        assert(mappings_with_unknown_rules(ms2.drop_last(), ms.drop_last())) by {
            assert forall|i: int| 0 <= i < ms.drop_last().len() implies {
                &&& (#[trigger] ms2.drop_last()[i]).0 == ms.drop_last()[i].0
                &&& ms2.drop_last()[i].1 == ms.drop_last()[i].1
                &&& ms2.drop_last()[i].3 == ms.drop_last()[i].3
                &&& with_unknown_rules(ms2.drop_last()[i].2, ms.drop_last()[i].2)
            } by {
                assert(ms2.drop_last()[i] == ms2[i] && ms.drop_last()[i] == ms[i]);
            }
        }
        lemma_clean_row_unknown(r, ms2.drop_last(), ms.drop_last());
        let w = clean_row(r, ms.drop_last());
        let k = ms.len() - 1;
        assert(ms2[k] == ms2.last() && ms[k] == ms.last());
        lemma_unknown_rules_chain(field_of(w, ms[k].0), ms2[k].2, ms[k].2);
    }
}

} // verus!
